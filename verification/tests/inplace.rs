use poisson::inplace::Inplace;

fn spread(t: i32) -> Vec<i32> {
    let n = match t % 3 {
        0 => 0..0,
        1 => 0..1,
        _ => 0..2,
    };
    n.map(move |n| t + n).collect()
}

#[test]
fn mapping_inplace_works() {
    let vec = vec![1, 2, 3, 4, 5, 6];
    let mut result = vec.clone();
    let func = |t| spread(t);
    result.flat_map_inplace(&func);
    let mut expected = vec.into_iter().flat_map(func).collect::<Vec<_>>();
    assert_eq!(expected.sort(), result.sort());
}

#[test]
fn mapping_inplace_gives_what_a_flat_map_gives() {
    let vec = vec![1, 2, 3, 4, 5, 6];
    let mut result = vec.clone();
    result.flat_map_inplace(spread);
    let mut expected = vec.into_iter().flat_map(spread).collect::<Vec<_>>();
    expected.sort();
    result.sort();
    assert_eq!(vec![1, 2, 3, 4, 5, 6], expected);
    assert_eq!(expected, result);
}

#[test]
fn mapping_inplace_keeps_repeated_elements() {
    let mut v = vec![7, 7, 2];
    v.flat_map_inplace(|t| vec![t, t]);
    v.sort();
    assert_eq!(vec![2, 2, 7, 7, 7, 7], v);
}

#[test]
fn mapping_inplace_can_empty_a_vector() {
    let mut v = vec![1, 2, 3];
    v.flat_map_inplace(|_| Vec::new());
    assert!(v.is_empty());
    let mut v: Vec<u8> = vec![];
    v.flat_map_inplace(|t| vec![t]);
    assert!(v.is_empty());
}
