use poisson::builder::{coarsest_resolution, is_buildable, Outcome, PoissonDisk, PoissonGen};
use poisson::grid::LEVELS;
use rand::Rng;
use poisson::distance::sqdist;
use poisson::grid::{Grid, CELL};
use poisson::point::{Point, VecLike};
use poisson::random::choose_random_sample;
use poisson::sample::Sample;
use rand::rngs::StdRng;
use rand::SeedableRng;

type Vec2 = Point<2>;
type Vec3 = Point<3>;

/// The lattice steps to the unit length at which the cell's diagonal is
/// twice `radius`, or a little more than that.
fn resolution_for(radius: f64, dim: usize) -> i128 {
    ((CELL as f64) * (dim as f64).sqrt() / (2.0 * radius)).floor() as i128
}

fn to_unit<const D: usize>(p: &Point<D>, resolution: i128) -> [f64; D] {
    let mut out = [0.0; D];
    for n in 0..D {
        out[n] = p.c[n] as f64 / resolution as f64;
    }
    out
}

/// The square of the disks' diameter in lattice steps.
fn sq_diameter(dim: usize) -> u128 {
    dim as u128 * (CELL as u128) * (CELL as u128)
}

fn assert_separated<const D: usize>(points: &[Sample<Point<D>>], resolution: i128, periodic: bool) {
    for i in 0..points.len() {
        for j in 0..points.len() {
            if i != j {
                let d = sqdist(points[i].pos, points[j].pos, resolution, periodic);
                assert!(d >= sq_diameter(D), "samples {} and {} are too close", i, j);
            }
        }
    }
}

fn run<const D: usize>(seed: u64, radius: f64, periodic: bool) -> (Vec<Sample<Point<D>>>, i128) {
    let resolution = resolution_for(radius, D).max(coarsest_resolution::<Point<D>>());
    assert!(is_buildable::<Point<D>>(resolution));
    let builder = PoissonDisk::new(StdRng::seed_from_u64(seed));
    let builder = if periodic { builder.perioditic() } else { builder };
    let mut gen: PoissonGen<Point<D>> = builder.build_resolution(resolution);
    let mut points = vec![];
    gen.generate(&mut points);
    (points, resolution)
}

#[test]
fn lib_random_point_is_between_right_values_top_lvl() {
    let mut rand = StdRng::seed_from_u64(1234);
    let radius = 0.2;
    let grid = Grid::<Vec2>::new(resolution_for(radius, 2), false);
    for _ in 0..1000 {
        let result = choose_random_sample(&mut rand, &grid, Vec2::zero(), 0);
        assert!(result.c[0] >= 0);
        assert!(result.c[0] < grid.cell());
        assert!(result.c[1] >= 0);
        assert!(result.c[1] < grid.cell());
    }
}

#[test]
fn mod_random_point_is_between_right_values_top_lvl() {
    let mut rand = StdRng::seed_from_u64(1234);
    let radius = 0.2;
    let grid = Grid::<Vec2>::new(resolution_for(radius, 2), false);
    for _ in 0..1000 {
        let result = choose_random_sample(&mut rand, &grid, Vec2::zero(), 0);
        assert!(result.c[0] >= 0);
        assert!(result.c[0] < grid.cell());
        assert!(result.c[1] >= 0);
        assert!(result.c[1] < grid.cell());
    }
}

#[test]
fn random_points_spread_over_the_cell() {
    let mut rand = StdRng::seed_from_u64(7);
    let grid = Grid::<Vec2>::new(resolution_for(0.2, 2), false);
    let index = Vec2::new([5, 9]);
    let level = 3;
    let width = CELL >> level;
    let mut low = false;
    let mut high = false;
    let mut first = None;
    let mut varies = false;
    for _ in 0..200 {
        let p = choose_random_sample(&mut rand, &grid, index, level);
        for n in 0..2 {
            assert!(p.c[n] >= index.c[n] * width);
            assert!(p.c[n] < (index.c[n] + 1) * width);
        }
        if p.c[0] - index.c[0] * width < width / 2 {
            low = true;
        } else {
            high = true;
        }
        match first {
            None => first = Some(p),
            Some(f) => varies = varies || f != p,
        }
    }
    assert!(low && high && varies);
}

#[test]
fn unit_square_at_radius_one_tenth() {
    let (points, resolution) = run::<2>(2024, 0.1, false);
    // Disks of radius 0.1 that do not overlap fill at most nine tenths of
    // the square they reach into: 41 of them. A set that cannot be added
    // to leaves no room for one more disk: about half of that.
    assert!(points.len() >= 15 && points.len() <= 41, "{} samples", points.len());
    assert_separated(&points, resolution, false);
    for s in &points {
        assert_eq!(resolution, s.resolution());
        let p = to_unit(&s.pos, resolution);
        for n in 0..2 {
            assert!(p[n] >= 0.0 && p[n] < 1.0);
        }
    }
    for i in 0..points.len() {
        for j in 0..i {
            let a = to_unit(&points[i].pos, resolution);
            let b = to_unit(&points[j].pos, resolution);
            let d = ((a[0] - b[0]).powi(2) + (a[1] - b[1]).powi(2)).sqrt();
            assert!(d >= 0.2 - 1e-9);
        }
    }
}

#[test]
fn the_same_seed_gives_the_same_samples() {
    let (first, _) = run::<2>(99, 0.1, false);
    let (second, _) = run::<2>(99, 0.1, false);
    assert_eq!(first, second);
    let (third, _) = run::<2>(100, 0.1, false);
    assert_ne!(first, third);
}

#[test]
fn torus_at_radius_one_tenth() {
    let (points, resolution) = run::<2>(5, 0.1, true);
    assert!(points.len() >= 15 && points.len() <= 41, "{} samples", points.len());
    assert_separated(&points, resolution, true);
    // Points near one face and points near the opposite face keep their
    // distance around the torus: measured by hand along the shorter way.
    let mut near_faces = 0;
    for i in 0..points.len() {
        for j in 0..points.len() {
            if i == j {
                continue;
            }
            let a = points[i].pos;
            let b = points[j].pos;
            if a.c[0] < CELL && b.c[0] > resolution - 2 * CELL {
                near_faces += 1;
                let mut sum: u128 = 0;
                for n in 0..2 {
                    let d = (a.c[n] - b.c[n]).abs();
                    let d = d.min(resolution - d) as u128;
                    sum += d * d;
                }
                assert!(sum >= sq_diameter(2));
            }
        }
    }
    assert!(near_faces > 0);
}

#[test]
fn more_axes_and_both_kinds_of_cube() {
    for seed in 0..5 {
        for &periodic in &[false, true] {
            let (points, resolution) = run::<3>(seed, 0.15, periodic);
            assert!(!points.is_empty());
            assert_separated(&points, resolution, periodic);
            let (points, resolution) = run::<4>(seed, 0.3, periodic);
            assert!(!points.is_empty());
            assert_separated(&points, resolution, periodic);
            let (points, resolution) = run::<1>(seed, 0.05, periodic);
            assert!(!points.is_empty());
            assert_separated(&points, resolution, periodic);
        }
    }
}

#[test]
fn a_run_ends_for_the_largest_and_for_small_radii() {
    let largest = 2f64.sqrt() / 2.0;
    for &periodic in &[false, true] {
        let (points, resolution) = run::<2>(3, largest, periodic);
        assert_eq!(1, points.len());
        assert_separated(&points, resolution, periodic);
        let (points, resolution) = run::<2>(3, 0.02, periodic);
        assert!(points.len() > 300 && points.len() < 800, "{} samples", points.len());
        assert_separated(&points[..200], resolution, periodic);
    }
}

#[test]
fn samples_given_beforehand_are_kept_and_respected() {
    for &periodic in &[false, true] {
        let resolution = resolution_for(0.1, 2);
        let mut gen: PoissonGen<Vec2> = if periodic {
            PoissonDisk::new(StdRng::seed_from_u64(11)).perioditic().build_resolution(resolution)
        } else {
            PoissonDisk::new(StdRng::seed_from_u64(11)).build_resolution(resolution)
        };
        let mut points = vec![];
        gen.generate(&mut points);
        let kept: Vec<_> = points.iter().cloned().step_by(3).collect();
        let mut extended = kept.clone();
        gen.generate(&mut extended);
        assert_eq!(&kept[..], &extended[..kept.len()]);
        assert!(extended.len() > kept.len());
        assert_separated(&extended, resolution, periodic);
    }
}

#[test]
fn nothing_is_added_to_a_full_set() {
    let (mut points, resolution) = run::<2>(17, 0.1, false);
    let before = points.clone();
    let mut gen: PoissonGen<Vec2> =
        PoissonDisk::new(StdRng::seed_from_u64(18)).build_resolution(resolution);
    gen.generate(&mut points);
    assert_eq!(&before[..], &points[..before.len()]);
    assert_separated(&points, resolution, false);
}

#[test]
fn the_builder_carries_its_settings() {
    let resolution = resolution_for(0.1, 2);
    let mut gen: PoissonGen<Vec2> =
        PoissonDisk::new(StdRng::seed_from_u64(1)).perioditic().build_resolution(resolution);
    assert!(gen.periodicity());
    assert_eq!(resolution, gen.resolution());
    gen.set_resolution(resolution * 2);
    assert_eq!(resolution * 2, gen.resolution());
    assert!(gen.periodicity());
    let gen: PoissonGen<Vec2> =
        PoissonDisk::new(StdRng::seed_from_u64(1)).build_resolution(resolution);
    assert!(!gen.periodicity());
}

#[test]
fn which_resolutions_a_sampler_is_built_for() {
    // A radius of half the square root of two, and beyond.
    assert!(is_buildable::<Vec2>(CELL));
    assert!(!is_buildable::<Vec2>(CELL - 1));
    assert!(is_buildable::<Vec3>(resolution_for(0.7, 3)));
    assert!(!is_buildable::<Vec3>(CELL));
    assert!(!is_buildable::<Vec2>(0));
    assert!(!is_buildable::<Vec2>(-CELL));
    // More cells than can be counted.
    assert!(!is_buildable::<Vec2>(CELL << 40));
    assert!(is_buildable::<Point<1>>(CELL << 40));
    assert!(!is_buildable::<Point<0>>(CELL));
    assert!(is_buildable::<Point<27>>(CELL * 4));
    assert!(!is_buildable::<Point<28>>(CELL * 4));
}

#[test]
fn the_coarsest_resolution_is_exact() {
    assert_eq!(6369051672525773, coarsest_resolution::<Point<1>>());
    assert_eq!(CELL, coarsest_resolution::<Vec2>());
    assert_eq!(11031521092846173, coarsest_resolution::<Vec3>());
    assert_eq!(12738103345051546, coarsest_resolution::<Point<4>>());
    assert_eq!(2 * CELL, coarsest_resolution::<Point<8>>());
    assert!(is_buildable::<Vec3>(coarsest_resolution::<Vec3>()));
    assert!(!is_buildable::<Vec3>(coarsest_resolution::<Vec3>() - 1));
    assert!(is_buildable::<Point<1>>(coarsest_resolution::<Point<1>>()));
    assert!(!is_buildable::<Point<1>>(coarsest_resolution::<Point<1>>() - 1));
}

#[test]
fn sample_holds_what_it_was_made_of() {
    let s = Sample::new(Vec3::new([1, 2, 3]), 77);
    assert_eq!(Vec3::new([1, 2, 3]), s.pos);
    assert_eq!(Vec3::new([1, 2, 3]), s.position());
    assert_eq!(77, s.resolution());
    assert_eq!(s, Sample::new(Vec3::new([1, 2, 3]), 77));
    assert_ne!(s, Sample::new(Vec3::new([1, 2, 3]), 78));
}

#[test]
fn a_run_that_ran_out_of_cells_has_left_no_room() {
    for seed in 0..10 {
        let resolution = resolution_for(0.07, 2);
        let mut gen: PoissonGen<Vec2> =
            PoissonDisk::new(StdRng::seed_from_u64(seed)).build_resolution(resolution);
        let mut points = vec![];
        let outcome = gen.fill(&mut points);
        assert!(outcome.levels <= LEVELS);
        assert!(outcome.exhausted || outcome.levels == LEVELS);
        assert_separated(&points, resolution, false);
        if outcome.exhausted {
            // No point of the grid is a diameter away from all samples.
            let side = resolution / CELL;
            let mut rand = StdRng::seed_from_u64(1000 + seed);
            for _ in 0..2000 {
                let x = Vec2::new([
                    rand.gen_range(0..side * CELL),
                    rand.gen_range(0..side * CELL),
                ]);
                let near = points
                    .iter()
                    .any(|s| sqdist(s.pos, x, resolution, false) < sq_diameter(2));
                assert!(near);
            }
        }
    }
}

#[test]
fn runs_end_long_before_the_cells_are_single_points() {
    let mut exhausted = 0;
    for seed in 0..20 {
        let resolution = resolution_for(0.1, 2);
        let mut gen: PoissonGen<Vec2> =
            PoissonDisk::new(StdRng::seed_from_u64(seed)).build_resolution(resolution);
        let mut points = vec![];
        let outcome = gen.fill(&mut points);
        if outcome.exhausted {
            exhausted += 1;
            assert!(outcome.levels < LEVELS);
        } else {
            assert_eq!(Outcome { levels: LEVELS, exhausted: false }, outcome);
        }
    }
    assert!(exhausted > 0);
}

#[test]
fn fill_and_generate_find_the_same() {
    let resolution = resolution_for(0.1, 2);
    let mut gen: PoissonGen<Vec2> =
        PoissonDisk::new(StdRng::seed_from_u64(5)).build_resolution(resolution);
    let mut filled = vec![];
    gen.fill(&mut filled);
    let mut gen: PoissonGen<Vec2> =
        PoissonDisk::new(StdRng::seed_from_u64(5)).build_resolution(resolution);
    let mut generated = vec![];
    gen.generate(&mut generated);
    assert_eq!(filled, generated);
}

#[test]
fn a_run_on_a_roomy_torus_has_left_no_room() {
    for seed in 0..10 {
        let resolution = resolution_for(0.07, 2);
        // A turn is at least a cell and two diameters long.
        let gap = (resolution - CELL) as u128;
        assert!(gap * gap >= 4 * sq_diameter(2));
        let mut gen: PoissonGen<Vec2> = PoissonDisk::new(StdRng::seed_from_u64(seed))
            .perioditic()
            .build_resolution(resolution);
        let mut points = vec![];
        let outcome = gen.fill(&mut points);
        assert_separated(&points, resolution, true);
        if outcome.exhausted {
            let side = resolution / CELL;
            let mut rand = StdRng::seed_from_u64(2000 + seed);
            for _ in 0..2000 {
                let x = Vec2::new([
                    rand.gen_range(0..side * CELL),
                    rand.gen_range(0..side * CELL),
                ]);
                let near =
                    points.iter().any(|s| sqdist(s.pos, x, resolution, true) < sq_diameter(2));
                assert!(near);
            }
        }
    }
}

#[test]
fn a_set_extended_from_given_points_has_left_no_room() {
    let resolution = resolution_for(0.1, 2);
    let side = resolution / CELL;
    let mut rand = StdRng::seed_from_u64(77);
    // Given points that are no valid set: some near to each other, some
    // beyond the grid.
    let mut points = vec![];
    for _ in 0..12 {
        let p = Vec2::new([
            rand.gen_range(-CELL..(side + 1) * CELL),
            rand.gen_range(-CELL..(side + 1) * CELL),
        ]);
        points.push(Sample::new(p, resolution));
    }
    let given = points.clone();
    let mut gen: PoissonGen<Vec2> =
        PoissonDisk::new(StdRng::seed_from_u64(78)).build_resolution(resolution);
    let outcome = gen.fill(&mut points);
    assert_eq!(&given[..], &points[..given.len()]);
    for new in &points[given.len()..] {
        for old in &given {
            assert!(sqdist(old.pos, new.pos, resolution, false) >= sq_diameter(2));
        }
    }
    assert_separated(&points[given.len()..], resolution, false);
    assert!(outcome.exhausted);
    for _ in 0..2000 {
        let x = Vec2::new([rand.gen_range(0..side * CELL), rand.gen_range(0..side * CELL)]);
        assert!(points.iter().any(|s| sqdist(s.pos, x, resolution, false) < sq_diameter(2)));
    }
}
