use poisson::grid::{cell_count, Grid, CELL, LEVELS};
use poisson::index::two_pow;
use poisson::point::Point;
use poisson::sample::Sample;

type Vec2 = Point<2>;

#[test]
fn a_grid_has_as_many_cells_as_fit() {
    let grid = Grid::<Vec2>::new(7 * CELL + CELL - 1, false);
    assert_eq!(7, grid.side());
    assert_eq!(49, grid.cells());
    assert_eq!(CELL, grid.cell());
    assert_eq!(7 * CELL + CELL - 1, grid.resolution());
    assert!(!grid.periodicity());
    let grid = Grid::<Point<3>>::new(4 * CELL, true);
    assert_eq!(4, grid.side());
    assert_eq!(64, grid.cells());
    assert!(grid.periodicity());
    // In one axis the largest radius leaves no room for a cell.
    let grid = Grid::<Point<1>>::new(CELL - 1, false);
    assert_eq!(0, grid.side());
    assert_eq!(0, grid.cells());
}

#[test]
fn the_cell_is_two_to_the_number_of_levels() {
    assert_eq!(CELL, 1i128 << LEVELS);
    assert_eq!(CELL, two_pow(LEVELS));
    assert_eq!(1, two_pow(0));
    assert_eq!(1i128 << 126, two_pow(126));
}

#[test]
fn counting_cells() {
    assert_eq!(1, cell_count(0, 0));
    assert_eq!(0, cell_count(0, 3));
    assert_eq!(1, cell_count(1, 30));
    assert_eq!(343, cell_count(7, 3));
}

#[test]
fn a_new_grid_is_empty() {
    let grid = Grid::<Vec2>::new(3 * CELL, false);
    for x in 0..3 {
        for y in 0..3 {
            assert_eq!(Some(&None), grid.get(Vec2::new([x, y])));
        }
    }
}

#[test]
fn a_bounded_grid_has_no_cells_outside() {
    let mut grid = Grid::<Vec2>::new(3 * CELL, false);
    assert_eq!(None, grid.get(Vec2::new([3, 0])));
    assert_eq!(None, grid.get(Vec2::new([0, -1])));
    assert!(grid.get_mut(Vec2::new([-1, 0])).is_none());
    assert!(grid.get_mut(Vec2::new([0, 3])).is_none());
}

#[test]
fn what_is_written_to_a_slot_is_read_again() {
    let mut grid = Grid::<Vec2>::new(3 * CELL, false);
    let p = Vec2::new([CELL + 5, 2 * CELL + 6]);
    *grid.get_mut(Vec2::new([1, 2])).unwrap() = Some(p);
    assert_eq!(Some(&Some(p)), grid.get(Vec2::new([1, 2])));
    assert_eq!(Some(&None), grid.get(Vec2::new([2, 1])));
    assert_eq!(Some(&None), grid.get(Vec2::new([1, 1])));
    grid.vacate(1 * 3 + 2);
    assert_eq!(Some(&None), grid.get(Vec2::new([1, 2])));
}

#[test]
fn a_periodic_grid_wraps_around() {
    let mut grid = Grid::<Vec2>::new(3 * CELL, true);
    let p = Vec2::new([CELL + 5, 2 * CELL + 6]);
    *grid.get_mut(Vec2::new([-2, 5])).unwrap() = Some(p);
    assert_eq!(Some(&Some(p)), grid.get(Vec2::new([1, 2])));
    assert_eq!(Some(&Some(p)), grid.get(Vec2::new([4, -1])));
    assert_eq!(Some(&None), grid.get(Vec2::new([3, 3])));
}

#[test]
fn the_grid_coarsens_like_the_free_function() {
    let grid = Grid::<Vec2>::new(3 * CELL, false);
    assert_eq!(Vec2::new([1, 2]), grid.get_parent(Vec2::new([16, 47]), 4));
}

#[test]
fn samples_come_out_in_the_order_of_the_cells() {
    let mut grid = Grid::<Vec2>::new(3 * CELL, false);
    let a = Vec2::new([2 * CELL, 0]);
    let b = Vec2::new([0, CELL]);
    let c = Vec2::new([CELL, CELL]);
    *grid.get_mut(Vec2::new([2, 0])).unwrap() = Some(a);
    *grid.get_mut(Vec2::new([1, 1])).unwrap() = Some(c);
    *grid.get_mut(Vec2::new([0, 1])).unwrap() = Some(b);
    let before = Sample::new(Vec2::new([9, 9]), 1);
    let mut out = vec![before];
    grid.into_extended_samples(&mut out);
    let r = 3 * CELL;
    assert_eq!(vec![before, Sample::new(b, r), Sample::new(c, r), Sample::new(a, r)], out);
}
