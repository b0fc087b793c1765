use poisson::builder::{place_given, take_given_out, top_level_cells};
use poisson::generator::{children, land, parent_taken, subdivide, throws};
use poisson::grid::{Grid, CELL};
use poisson::point::Point;
use poisson::sample::Sample;

type Vec2 = Point<2>;

const UNIT: i128 = 5 * CELL;

#[test]
fn three_tenths_rounded_up() {
    assert_eq!(0, throws(0));
    assert_eq!(1, throws(1));
    assert_eq!(1, throws(3));
    assert_eq!(2, throws(4));
    assert_eq!(3, throws(10));
    assert_eq!(4, throws(11));
    assert_eq!(15, throws(49));
    assert_eq!(30, throws(100));
    assert_eq!(usize::MAX / 10 * 3 + 2, throws(usize::MAX));
}

#[test]
fn the_first_candidates_are_all_cells() {
    let cells = top_level_cells::<Vec2>(3);
    assert_eq!(9, cells.len());
    assert_eq!(Vec2::new([0, 0]), cells[0]);
    assert_eq!(Vec2::new([1, 0]), cells[1]);
    assert_eq!(Vec2::new([2, 0]), cells[2]);
    assert_eq!(Vec2::new([0, 1]), cells[3]);
    assert_eq!(Vec2::new([2, 2]), cells[8]);
    assert!(top_level_cells::<Vec2>(0).is_empty());
}

#[test]
fn a_dart_in_an_empty_grid_lands() {
    let mut grid = Grid::<Vec2>::new(UNIT, false);
    let mut indices = top_level_cells::<Vec2>(5);
    assert!(!parent_taken(&grid, indices[7], 0));
    let sample = Vec2::new([2 * CELL + 9, CELL + 8]);
    assert!(land(&mut grid, &mut indices, 0, &[], 7, sample));
    assert_eq!(Some(&Some(sample)), grid.get(Vec2::new([2, 1])));
    // The last candidate has taken the place of the one that was hit.
    assert_eq!(24, indices.len());
    assert_eq!(Vec2::new([4, 4]), indices[7]);
    assert_eq!(Vec2::new([1, 1]), indices[6]);
    assert_eq!(Vec2::new([3, 1]), indices[8]);
}

#[test]
fn a_dart_too_near_to_a_sample_changes_nothing() {
    let mut grid = Grid::<Vec2>::new(UNIT, false);
    let mut indices = top_level_cells::<Vec2>(5);
    let first = Vec2::new([2 * CELL + 9, CELL + 8]);
    assert!(land(&mut grid, &mut indices, 0, &[], 7, first));
    let before = indices.clone();
    // Candidate 8 is the cell (3, 1).
    let near = Vec2::new([3 * CELL, CELL + 8]);
    assert!(!parent_taken(&grid, indices[8], 0));
    assert!(!land(&mut grid, &mut indices, 0, &[], 8, near));
    assert_eq!(before, indices);
    assert_eq!(Some(&None), grid.get(Vec2::new([3, 1])));
    let away = Vec2::new([3 * CELL + CELL - 1, CELL + CELL - 1]);
    assert!(land(&mut grid, &mut indices, 0, &[], 8, away));
    assert_eq!(Some(&Some(away)), grid.get(Vec2::new([3, 1])));
    assert_eq!(23, indices.len());
}

#[test]
fn a_dart_too_near_to_a_point_from_outside_changes_nothing() {
    let mut grid = Grid::<Vec2>::new(UNIT, false);
    let mut indices = top_level_cells::<Vec2>(5);
    let sample = Vec2::new([2 * CELL + 9, CELL + 8]);
    let outside = [Vec2::new([2 * CELL, CELL])];
    assert!(!land(&mut grid, &mut indices, 0, &outside, 7, sample));
    assert_eq!(25, indices.len());
    assert_eq!(Some(&None), grid.get(Vec2::new([2, 1])));
}

#[test]
fn a_cell_is_taken_at_every_level() {
    let mut grid = Grid::<Vec2>::new(UNIT, false);
    let mut indices = top_level_cells::<Vec2>(5);
    let sample = Vec2::new([2 * CELL + 9, CELL + 8]);
    assert!(land(&mut grid, &mut indices, 0, &[], 7, sample));
    assert!(parent_taken(&grid, Vec2::new([2, 1]), 0));
    assert!(parent_taken(&grid, Vec2::new([2 * 8 + 7, 8 + 3]), 3));
    assert!(!parent_taken(&grid, Vec2::new([3 * 8, 8 + 3]), 3));
}

#[test]
fn children_of_a_cell_are_four_smaller_cells() {
    let grid = Grid::<Vec2>::new(UNIT, false);
    let got = children(&grid, &[], Vec2::new([2, 1]), 0);
    let all = vec![
        Vec2::new([4, 2]),
        Vec2::new([5, 2]),
        Vec2::new([4, 3]),
        Vec2::new([5, 3]),
    ];
    assert_eq!(all, got);
    let got = children(&grid, &[], Vec2::new([9, 0]), 1);
    assert_eq!(Vec2::new([18, 0]), got[0]);
    assert_eq!(Vec2::new([19, 1]), got[3]);
}

#[test]
fn covered_children_are_given_up() {
    let mut grid = Grid::<Vec2>::new(UNIT, false);
    // A sample in the middle of the cell (2, 1) covers the whole cell.
    let sample = Vec2::new([2 * CELL + CELL / 2, CELL + CELL / 2]);
    *grid.get_mut(Vec2::new([2, 1])).unwrap() = Some(sample);
    assert!(children(&grid, &[], Vec2::new([2, 1]), 0).is_empty());
    // Of the next cell it covers the two children on its side.
    let got = children(&grid, &[], Vec2::new([3, 1]), 0);
    assert_eq!(vec![Vec2::new([7, 2]), Vec2::new([7, 3])], got);
    // A point from outside covers as a sample does.
    let empty = Grid::<Vec2>::new(UNIT, false);
    let got = children(&empty, &[sample], Vec2::new([3, 1]), 0);
    assert_eq!(vec![Vec2::new([7, 2]), Vec2::new([7, 3])], got);
    // Far away nothing is covered.
    assert_eq!(4, children(&grid, &[], Vec2::new([0, 4]), 0).len());
}

#[test]
fn dividing_replaces_each_cell_by_its_uncovered_children() {
    let mut grid = Grid::<Vec2>::new(UNIT, false);
    let sample = Vec2::new([2 * CELL + CELL / 2, CELL + CELL / 2]);
    *grid.get_mut(Vec2::new([2, 1])).unwrap() = Some(sample);
    let mut indices = vec![Vec2::new([2, 1]), Vec2::new([3, 1]), Vec2::new([0, 4])];
    subdivide(&grid, &[], &mut indices, 0);
    indices.sort_by_key(|p| (p.c[1], p.c[0]));
    let expected = vec![
        Vec2::new([7, 2]),
        Vec2::new([7, 3]),
        Vec2::new([0, 8]),
        Vec2::new([1, 8]),
        Vec2::new([0, 9]),
        Vec2::new([1, 9]),
    ];
    assert_eq!(expected, indices);
}

#[test]
fn given_points_go_into_their_cells() {
    let mut grid = Grid::<Vec2>::new(UNIT, false);
    let a = Vec2::new([2 * CELL + 5, CELL + 5]);
    let twin = Vec2::new([2 * CELL + 6, CELL + 6]);
    let beyond = Vec2::new([5 * CELL, 0]);
    let below = Vec2::new([-1, 0]);
    let b = Vec2::new([0, 4 * CELL]);
    let points: Vec<_> =
        [a, twin, beyond, below, b].iter().map(|&p| Sample::new(p, UNIT)).collect();
    let (stored, aside) = place_given(&mut grid, &points);
    assert_eq!(vec![2 * 5 + 1, 4], stored);
    assert_eq!(vec![twin, beyond, below], aside);
    assert_eq!(Some(&Some(a)), grid.get(Vec2::new([2, 1])));
    assert_eq!(Some(&Some(b)), grid.get(Vec2::new([0, 4])));
    take_given_out(&mut grid, &stored);
    assert_eq!(Some(&None), grid.get(Vec2::new([2, 1])));
    assert_eq!(Some(&None), grid.get(Vec2::new([0, 4])));
}

#[test]
fn given_points_are_set_aside_in_many_axes() {
    let mut grid = Grid::<Point<5>>::new(2 * CELL, false);
    let p = Point::<5>::new([5, 5, 5, 5, 5]);
    let (stored, aside) = place_given(&mut grid, &vec![Sample::new(p, 2 * CELL)]);
    assert!(stored.is_empty());
    assert_eq!(vec![p], aside);
    assert_eq!(Some(&None), grid.get(Point::<5>::new([0, 0, 0, 0, 0])));
}
