use poisson::builder::{coarsest_resolution, is_buildable, PoissonDisk, PoissonGen};
use poisson::distance::sqdist;
use poisson::grid::CELL;
use poisson::point::Point;
use poisson::sample::Sample;
use rand::rngs::StdRng;
use rand::SeedableRng;

type Vec3 = Point<3>;

fn resolution_for(radius: f64) -> i128 {
    let steps = ((CELL as f64) * 3f64.sqrt() / (2.0 * radius)).floor() as i128;
    steps.max(coarsest_resolution::<Vec3>())
}

fn with_radius(rand: StdRng, radius: f64, periodicity: bool) -> PoissonGen<Vec3> {
    let resolution = resolution_for(radius);
    assert!(is_buildable::<Vec3>(resolution));
    let builder = PoissonDisk::new(rand);
    if periodicity {
        builder.perioditic().build_resolution(resolution)
    } else {
        builder.build_resolution(resolution)
    }
}

/// The points of one lattice as points of another.
fn carried_over(points: &[Sample<Vec3>], resolution: i128) -> Vec<Sample<Vec3>> {
    points
        .iter()
        .map(|s| {
            let mut c = [0; 3];
            for n in 0..3 {
                c[n] = s.pos.c[n] * resolution / s.resolution();
            }
            Sample::new(Vec3::new(c), resolution)
        })
        .collect()
}

fn assert_valid(points: &[Sample<Vec3>], resolution: i128, periodicity: bool) {
    let limit = 3 * (CELL as u128) * (CELL as u128);
    for i in 0..points.len() {
        for n in 0..3 {
            assert!(points[i].pos.c[n] >= 0 && points[i].pos.c[n] < resolution);
        }
        for j in 0..i {
            let d = sqdist(points[i].pos, points[j].pos, resolution, periodicity);
            assert!(d >= limit, "samples {} and {} are too close", i, j);
        }
    }
}

fn test_with_seeds_prefill(
    radius: f64,
    seeds: u32,
    periodicity: bool,
    filler: &mut dyn FnMut(&mut Vec<Sample<Vec3>>, u32),
) {
    let resolution = resolution_for(radius);
    for i in 0..seeds {
        let mut prefilled = vec![];
        filler(&mut prefilled, i);
        let mut points = carried_over(&prefilled, resolution);
        let given = points.clone();
        let rand = StdRng::seed_from_u64(u64::from(i));
        let mut poisson = with_radius(rand, radius, periodicity);
        poisson.generate(&mut points);
        assert_eq!(&given[..], &points[..given.len()]);
        assert!(points.len() > given.len() || !given.is_empty());
        assert_valid(&points, resolution, periodicity);
    }
}

fn seeded(i: u32) -> StdRng {
    let parts = [i * 2 + 1, i * 1 + 1, i + 1, 2];
    let mut seed = [0u8; 32];
    for (n, part) in parts.iter().enumerate() {
        seed[4 * n..4 * n + 4].copy_from_slice(&part.to_le_bytes());
    }
    StdRng::from_seed(seed)
}

#[test]
fn test_3d_2th_prefilled_1th_normal() {
    let radius = 2f64.sqrt() / 2f64;
    test_with_seeds_prefill(radius / 2f64, 800, false, &mut |ref mut v, i| {
        let rand = seeded(i);
        let mut poisson = with_radius(rand, radius, false);
        poisson.generate(v);
    });
}

#[test]
fn test_3d_8th_prefilled_4th_normal() {
    let radius = 2f64.sqrt() / 2f64;
    test_with_seeds_prefill(radius / 8f64, 100, false, &mut |ref mut v, i| {
        let rand = seeded(i);
        let mut poisson = with_radius(rand, radius / 4f64, false);
        poisson.generate(v);
    });
}

#[test]
fn test_3d_2th_prefilled_1th_perioditic() {
    let radius = 2f64.sqrt() / 2f64;
    test_with_seeds_prefill(radius / 2f64, 200, true, &mut |ref mut v, i| {
        let rand = seeded(i);
        let mut poisson = with_radius(rand, 0.499999999, true);
        poisson.generate(v);
    });
}

#[test]
fn test_3d_8th_prefilled_4th_perioditic() {
    let radius = 2f64.sqrt() / 2f64;
    test_with_seeds_prefill(radius / 8f64, 25, true, &mut |ref mut v, i| {
        let rand = seeded(i);
        let mut poisson = with_radius(rand, radius / 4f64, true);
        poisson.generate(v);
    });
}
