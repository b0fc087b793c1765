use poisson::distance::{is_valid, sqdist, threshold};
use poisson::grid::{Grid, CELL};
use poisson::point::{Point, VecLike};
use poisson::random::place_in_cell;
use poisson::ring::{covered, covered_by_outside, is_cell_covered, is_disk_free};

type Vec2 = Point<2>;
type Vec3 = Point<3>;

const UNIT: i128 = 7 * CELL + 12345;

fn grid_with(points: &[Vec2], periodic: bool) -> Grid<Vec2> {
    let mut grid = Grid::<Vec2>::new(UNIT, periodic);
    for &p in points {
        let cell = Vec2::new([p.c[0].div_euclid(CELL), p.c[1].div_euclid(CELL)]);
        *grid.get_mut(cell).unwrap() = Some(p);
    }
    grid
}

#[test]
fn plain_distance_is_the_sum_of_squares() {
    assert_eq!(25, sqdist(Vec2::new([0, 0]), Vec2::new([3, 4]), UNIT, false));
    assert_eq!(25, sqdist(Vec2::new([3, 4]), Vec2::new([0, 0]), UNIT, false));
    assert_eq!(0, sqdist(Vec2::new([3, 4]), Vec2::new([3, 4]), UNIT, false));
    assert_eq!(1 + 4 + 9, sqdist(Vec3::new([-1, -1, -1]), Vec3::new([0, 1, 2]), UNIT, false));
}

#[test]
fn distance_on_the_torus_takes_the_shorter_way() {
    let a = Vec2::new([10, 20]);
    let b = Vec2::new([100 - 5, 100 - 7]);
    // A torus of 100 steps: 15 and 27 steps apart the short way round.
    assert_eq!(15 * 15 + 27 * 27, sqdist(a, b, 100, true));
    assert_eq!(15 * 15 + 27 * 27, sqdist(b, a, 100, true));
    assert_eq!(85 * 85 + 73 * 73, sqdist(a, b, 100, false));
    // One axis the short way, the other the plain way.
    let c = Vec2::new([95, 30]);
    assert_eq!(15 * 15 + 10 * 10, sqdist(a, c, 100, true));
    // Only one turn each way is looked at.
    let far = Vec2::new([10 + 250, 20]);
    assert_eq!(150 * 150, sqdist(a, far, 100, true));
}

#[test]
fn distance_saturates() {
    let big = 1i128 << 100;
    assert_eq!(u128::MAX, sqdist(Vec2::new([0, 0]), Vec2::new([big, 0]), UNIT, false));
    assert_eq!(u128::MAX, sqdist(Vec2::new([-big, 0]), Vec2::new([big, 5]), UNIT, false));
    let edge = (1i128 << 64) - 1;
    assert_eq!(
        (edge as u128) * (edge as u128),
        sqdist(Vec2::new([0, 0]), Vec2::new([edge, 0]), UNIT, false)
    );
    assert_eq!(u128::MAX, sqdist(Vec2::new([0, 0]), Vec2::new([edge, edge]), UNIT, false));
}

#[test]
fn the_threshold_is_the_square_of_the_cells_diagonal() {
    assert_eq!(2 * (CELL as u128) * (CELL as u128), threshold::<Vec2>());
    assert_eq!(3 * (CELL as u128) * (CELL as u128), threshold::<Vec3>());
}

#[test]
fn valid_means_a_diameter_away_from_all() {
    // The diameter in two axes is the square root of two cells: a point
    // one cell along each axis is exactly that far, and far enough.
    let origin = Vec2::new([0, 0]);
    let samples = [Vec2::new([CELL, CELL]), Vec2::new([3 * CELL, -3 * CELL])];
    assert!(is_valid(&samples, origin, UNIT, false));
    let samples = [Vec2::new([CELL, CELL - 1])];
    assert!(!is_valid(&samples, origin, UNIT, false));
    let samples = [Vec2::new([3 * CELL, 0]), Vec2::new([CELL, CELL - 1])];
    assert!(!is_valid(&samples, origin, UNIT, false));
    assert!(is_valid(&[], origin, UNIT, false));
    // Near around the torus, far in the bounded cube.
    let samples = [Vec2::new([UNIT - CELL / 2, 0])];
    assert!(is_valid(&samples, origin, UNIT, false));
    assert!(!is_valid(&samples, origin, UNIT, true));
}

#[test]
fn a_point_is_free_where_no_sample_of_the_ring_is_near() {
    let held = Vec2::new([3 * CELL + 10, 3 * CELL + 10]);
    let grid = grid_with(&[held], false);
    let cell = Vec2::new([4, 4]);
    let near = Vec2::new([4 * CELL, 4 * CELL]);
    let away = Vec2::new([4 * CELL + CELL / 2, 4 * CELL + CELL - 1]);
    assert!(!is_disk_free(&grid, cell, 0, near, &[]));
    assert!(is_disk_free(&grid, cell, 0, away, &[]));
    // The same cell named at a finer level.
    let fine = Vec2::new([4 * 8 + 3, 4 * 8 + 5]);
    assert!(!is_disk_free(&grid, fine, 3, near, &[]));
    assert!(is_disk_free(&grid, fine, 3, away, &[]));
    // A point from outside counts as well.
    assert!(!is_disk_free(&grid, cell, 0, away, &[Vec2::new([4 * CELL + CELL / 2, 5 * CELL])]));
    assert!(is_disk_free(&grid, cell, 0, away, &[Vec2::new([0, 0])]));
}

#[test]
fn the_search_does_not_look_beyond_the_ring() {
    // Three cells away nothing is looked at, however near the point is
    // said to be.
    let held = Vec2::new([CELL / 2, CELL / 2]);
    let grid = grid_with(&[held], false);
    assert!(is_disk_free(&grid, Vec2::new([3, 0]), 0, held, &[]));
    assert!(!is_disk_free(&grid, Vec2::new([2, 0]), 0, held, &[]));
    assert!(!is_disk_free(&grid, Vec2::new([2, 2]), 0, held, &[]));
    assert!(is_disk_free(&grid, Vec2::new([2, 3]), 0, held, &[]));
}

#[test]
fn the_ring_reaches_around_the_torus() {
    let held = Vec2::new([6 * CELL + CELL / 2, CELL / 2]);
    let bounded = grid_with(&[held], false);
    let torus = grid_with(&[held], true);
    let point = Vec2::new([10, CELL / 2]);
    assert!(is_disk_free(&bounded, Vec2::new([0, 0]), 0, point, &[]));
    assert!(!is_disk_free(&torus, Vec2::new([0, 0]), 0, point, &[]));
}

#[test]
fn a_cell_is_covered_where_all_its_corners_are_near() {
    let held = Vec2::new([3 * CELL + CELL / 2, 3 * CELL + CELL / 2]);
    let grid = grid_with(&[held], false);
    // The sample's own cell: its corners are half a diagonal away.
    assert!(is_cell_covered(&held, Vec2::new([3, 3]), &grid, 0));
    assert!(covered(&grid, Vec2::new([3, 3]), 0));
    // The next cell: its far corners are too far.
    assert!(!is_cell_covered(&held, Vec2::new([4, 3]), &grid, 0));
    assert!(!covered(&grid, Vec2::new([4, 3]), 0));
    // The near half of the next cell, two levels down.
    assert!(is_cell_covered(&held, Vec2::new([16, 13]), &grid, 2));
    assert!(covered(&grid, Vec2::new([16, 13]), 2));
    assert!(!is_cell_covered(&held, Vec2::new([19, 13]), &grid, 2));
    assert!(!covered(&grid, Vec2::new([19, 13]), 2));
    // Covered from outside the grid.
    let empty = grid_with(&[], false);
    assert!(!covered(&empty, Vec2::new([3, 3]), 0));
    assert!(covered_by_outside(&[Vec2::new([0, 0]), held], Vec2::new([3, 3]), &empty, 0));
    assert!(!covered_by_outside(&[Vec2::new([0, 0])], Vec2::new([3, 3]), &empty, 0));
    assert!(!covered_by_outside(&[], Vec2::new([3, 3]), &empty, 0));
}

#[test]
fn a_corner_exactly_a_diameter_away_is_not_covered() {
    // The sample in a corner of its cell: the opposite corner is exactly
    // the diagonal away.
    let held = Vec2::new([3 * CELL, 3 * CELL]);
    let grid = grid_with(&[held], false);
    assert!(!is_cell_covered(&held, Vec2::new([3, 3]), &grid, 0));
    assert!(is_cell_covered(&held, Vec2::new([6, 6]), &grid, 1));
    assert!(!is_cell_covered(&held, Vec2::new([7, 7]), &grid, 1));
}

#[test]
fn placing_in_a_cell() {
    let p = place_in_cell(Vec2::new([5, 9]), 0, Vec2::new([0, CELL - 1]));
    assert_eq!(Vec2::new([5 * CELL, 10 * CELL - 1]), p);
    let p = place_in_cell(Vec2::new([5, 9]), 3, Vec2::new([1, 2]));
    assert_eq!(Vec2::new([5 * (CELL / 8) + 1, 9 * (CELL / 8) + 2]), p);
    let p = place_in_cell(Vec2::new([5, 9]), 53, Vec2::zero());
    assert_eq!(Vec2::new([5, 9]), p);
}

#[test]
fn in_five_axes_the_ring_is_too_small() {
    // The diameter is the square root of five cells, more than the two
    // cells that lie between a cell and the cells beyond its ring.
    type Vec5 = Point<5>;
    let mut grid = Grid::<Vec5>::new(4 * CELL, false);
    let held = Vec5::new([CELL - 1, 0, 0, 0, 0]);
    *grid.get_mut(Vec5::new([0, 0, 0, 0, 0])).unwrap() = Some(held);
    let point = Vec5::new([3 * CELL, 0, 0, 0, 0]);
    assert!(sqdist(held, point, 4 * CELL, false) < threshold::<Vec5>());
    assert!(is_disk_free(&grid, Vec5::new([3, 0, 0, 0, 0]), 0, point, &[]));
    // Given from outside the same point is found.
    assert!(!is_disk_free(&grid, Vec5::new([3, 0, 0, 0, 0]), 0, point, &[held]));
}
