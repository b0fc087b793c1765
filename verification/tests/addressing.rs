use poisson::index::{decode, encode, get_parent};
use poisson::point::Point;

type Vec2 = Point<2>;

#[test]
fn lib_encoding_decoding_works() {
    let n = Vec2::new([10, 7]);
    assert_eq!(n, decode(encode(&n, 15, false).unwrap(), 15).unwrap());
}

#[test]
fn mod_encoding_decoding_works() {
    let n = Vec2::new([10, 7]);
    assert_eq!(n, decode(encode(&n, 15, false).unwrap(), 15).unwrap());
}

#[test]
fn lib_encoding_decoding_at_edge_works() {
    let n = Vec2::new([14, 14]);
    assert_eq!(n, decode(encode(&n, 15, false).unwrap(), 15).unwrap());
}

#[test]
fn mod_encoding_decoding_at_edge_works() {
    let n = Vec2::new([14, 14]);
    assert_eq!(n, decode(encode(&n, 15, false).unwrap(), 15).unwrap());
}

#[test]
fn lib_encoding_outside_of_area_fails() {
    let n = Vec2::new([9, 7]);
    assert_eq!(None, encode(&n, 9, false));
    let n = Vec2::new([7, 9]);
    assert_eq!(None, encode(&n, 9, false));
}

#[test]
fn mod_encoding_outside_of_area_fails() {
    let n = Vec2::new([9, 7]);
    assert_eq!(None, encode(&n, 9, false));
    let n = Vec2::new([7, 9]);
    assert_eq!(None, encode(&n, 9, false));
}

#[test]
fn lib_decoding_outside_of_area_fails() {
    assert_eq!(None, decode::<Vec2>(100, 10));
}

#[test]
fn mod_decoding_outside_of_area_fails() {
    assert_eq!(None, decode::<Vec2>(100, 10));
}

#[test]
fn lib_getting_parent_works() {
    let divides = 4;
    let cells_per_cell = 2i128.pow(divides as u32);
    let testee = Vec2::new([1, 2]);
    let fine = Vec2::new([1 * cells_per_cell, 2 * cells_per_cell + 15]);
    assert_eq!(testee, get_parent(fine, divides));
}

#[test]
fn mod_getting_parent_works() {
    let divides = 4;
    let cells_per_cell = 2i128.pow(divides as u32);
    let testee = Vec2::new([1, 2]);
    let fine = Vec2::new([1 * cells_per_cell, 2 * cells_per_cell + 15]);
    assert_eq!(testee, get_parent(fine, divides));
}

#[test]
fn encode_writes_the_first_axis_highest() {
    assert_eq!(Some(157), encode(&Vec2::new([10, 7]), 15, false));
    assert_eq!(Some(0), encode(&Vec2::new([0, 0]), 15, false));
    assert_eq!(Some(224), encode(&Vec2::new([14, 14]), 15, false));
}

#[test]
fn encode_rejects_negative_coordinates_on_a_bounded_grid() {
    assert_eq!(None, encode(&Vec2::new([-1, 3]), 9, false));
    assert_eq!(None, encode(&Vec2::new([3, -1]), 9, false));
}

#[test]
fn encode_wraps_around_on_a_periodic_grid() {
    // -1 is the last cell, 9 the first, -10 the last but one turn back.
    assert_eq!(encode(&Vec2::new([8, 3]), 9, false), encode(&Vec2::new([-1, 3]), 9, true));
    assert_eq!(encode(&Vec2::new([0, 3]), 9, false), encode(&Vec2::new([9, 3]), 9, true));
    assert_eq!(encode(&Vec2::new([8, 8]), 9, false), encode(&Vec2::new([-10, 17]), 9, true));
    assert_eq!(Some(8 * 9 + 3), encode(&Vec2::new([-1, 3]), 9, true));
}

#[test]
fn periodic_encode_never_rejects() {
    for x in -30..30 {
        for y in -30..30 {
            let i = encode(&Vec2::new([x, y]), 7, true);
            assert!(i.is_some());
            assert!(i.unwrap() < 49);
        }
    }
}

#[test]
fn decode_inverts_encode_everywhere_on_a_small_grid() {
    let side = 6;
    for x in 0..side as i128 {
        for y in 0..side as i128 {
            let n = Vec2::new([x, y]);
            let i = encode(&n, side, false).unwrap();
            assert_eq!(Some(n), decode::<Vec2>(i, side));
        }
    }
    for i in 0..side * side {
        let v = decode::<Vec2>(i, side).unwrap();
        assert_eq!(Some(i), encode(&v, side, false));
        assert_eq!(Some(i), encode(&v, side, true));
    }
    assert_eq!(None, decode::<Vec2>(side * side, side));
}

#[test]
fn decode_on_a_grid_without_cells() {
    assert_eq!(None, decode::<Vec2>(0, 0));
    assert_eq!(None, encode(&Vec2::new([0, 0]), 0, false));
}

#[test]
fn decode_in_three_axes() {
    let v = decode::<Point<3>>(1 * 16 + 2 * 4 + 3, 4).unwrap();
    assert_eq!(Point::<3>::new([1, 2, 3]), v);
    assert_eq!(None, decode::<Point<3>>(64, 4));
}

#[test]
fn parent_rounds_down_below_zero() {
    assert_eq!(Vec2::new([-1, -2]), get_parent(Vec2::new([-1, -17]), 4));
    assert_eq!(Vec2::new([-1, 0]), get_parent(Vec2::new([-16, 15]), 4));
    assert_eq!(Vec2::new([5, -7]), get_parent(Vec2::new([5, -7]), 0));
}

#[test]
fn parent_at_a_level_beyond_all_coordinates() {
    assert_eq!(Vec2::new([0, -1]), get_parent(Vec2::new([i128::MAX, i128::MIN]), 127));
    assert_eq!(Vec2::new([0, -1]), get_parent(Vec2::new([12, -12]), 1000));
    assert_eq!(Vec2::new([1, -2]), get_parent(Vec2::new([i128::MAX, i128::MIN]), 126));
}

#[test]
fn parent_of_a_parent_is_the_parent_at_the_sum_of_the_levels() {
    for x in -70..70 {
        for k1 in 0..4 {
            for k2 in 0..4 {
                let c = Vec2::new([x, 3 * x + 1]);
                assert_eq!(get_parent(get_parent(c, k1), k2), get_parent(c, k1 + k2));
            }
        }
    }
}

#[test]
fn parent_beyond_the_grid_is_not_rejected() {
    let cells_per_cell = 2i128.pow(4);
    let fine = Vec2::new([1 * cells_per_cell, 3 * cells_per_cell + 15]);
    assert_eq!(Vec2::new([1, 3]), get_parent(fine, 4));
}
