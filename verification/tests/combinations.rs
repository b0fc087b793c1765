use poisson::combination::each_combination;
use poisson::point::{plus, scaled, Point, VecLike};

type Vec2 = Point<2>;
type Vec3 = Point<3>;

fn all<const D: usize>(choices: &[i128]) -> Vec<Point<D>> {
    let mut it = each_combination::<Point<D>>(choices);
    let mut out = vec![];
    while let Some(v) = it.next() {
        out.push(v);
    }
    assert_eq!(None, it.next());
    assert_eq!(None, it.next());
    out
}

#[test]
fn two_choices_in_two_axes_in_order() {
    let got = all::<2>(&[0, 1]);
    let expected: Vec<Vec2> =
        vec![Vec2::new([0, 0]), Vec2::new([1, 0]), Vec2::new([0, 1]), Vec2::new([1, 1])];
    assert_eq!(expected, got);
}

#[test]
fn the_first_axis_turns_fastest() {
    let got = all::<3>(&[-1, 0, 1]);
    assert_eq!(27, got.len());
    assert_eq!(Vec3::new([-1, -1, -1]), got[0]);
    assert_eq!(Vec3::new([0, -1, -1]), got[1]);
    assert_eq!(Vec3::new([1, -1, -1]), got[2]);
    assert_eq!(Vec3::new([-1, 0, -1]), got[3]);
    assert_eq!(Vec3::new([-1, -1, 0]), got[9]);
    assert_eq!(Vec3::new([0, 0, 0]), got[13]);
    assert_eq!(Vec3::new([1, 1, 1]), got[26]);
}

#[test]
fn every_vector_comes_once() {
    let choices = [-2, -1, 0, 1, 2];
    let got = all::<3>(&choices);
    assert_eq!(125, got.len());
    for &x in &choices {
        for &y in &choices {
            for &z in &choices {
                let v = Vec3::new([x, y, z]);
                assert_eq!(1, got.iter().filter(|&&g| g == v).count());
            }
        }
    }
}

#[test]
fn the_choices_are_taken_as_they_are_given() {
    let got = all::<2>(&[7, -3, 7]);
    assert_eq!(9, got.len());
    assert_eq!(Vec2::new([7, 7]), got[0]);
    assert_eq!(Vec2::new([-3, 7]), got[1]);
    assert_eq!(Vec2::new([7, 7]), got[2]);
    assert_eq!(Vec2::new([7, -3]), got[3]);
    assert_eq!(Vec2::new([7, 7]), got[8]);
}

#[test]
fn no_choices_give_no_vectors() {
    assert!(all::<2>(&[]).is_empty());
}

#[test]
fn no_axes_give_the_one_empty_vector() {
    assert_eq!(vec![Point::<0>::new([])], all::<0>(&[4, 5, 6]));
    assert_eq!(vec![Point::<0>::new([])], all::<0>(&[]));
}

#[test]
fn a_walk_can_be_started_again() {
    let choices = [0, 1];
    assert_eq!(all::<3>(&choices), all::<3>(&choices));
}

#[test]
fn point_capabilities() {
    assert_eq!(3, Vec3::dim());
    assert_eq!(Vec3::new([0, 0, 0]), Vec3::zero());
    let mut p = Vec3::new([4, -5, 6]);
    assert_eq!(-5, p.get(1));
    p.set(1, 9);
    assert_eq!(Vec3::new([4, 9, 6]), p);
    let q = p;
    p.set(0, 0);
    assert_eq!(Vec3::new([4, 9, 6]), q);
    assert_eq!(Vec3::new([5, 7, 9]), plus(Vec3::new([1, 2, 3]), Vec3::new([4, 5, 6])));
    assert_eq!(Vec3::new([-3, 0, 6]), scaled(Vec3::new([-1, 0, 2]), 3));
    assert_eq!(Vec3::zero(), scaled(Vec3::new([-1, 0, 2]), 0));
}
