use rand::rngs::StdRng;
use rand::SeedableRng;
use sort_bench::distributions::{
    AllEqual, AscendingDescending, InputDistribution, PushFront, PushMiddle, Reverse, Shuffled,
    ShuffledValues, Sorted, Uniform,
};

fn rng() -> StdRng {
    StdRng::seed_from_u64(7)
}

#[test]
fn lengths_match_for_every_distribution() {
    let mut r = rng();
    for len in [0usize, 1, 2, 5, 6, 33] {
        assert_eq!(Sorted::generate(&mut r, len).len(), len);
        assert_eq!(Reverse::generate(&mut r, len).len(), len);
        assert_eq!(AllEqual::generate(&mut r, len).len(), len);
        assert_eq!(Shuffled::generate(&mut r, len).len(), len);
        assert_eq!(ShuffledValues::<3>::generate(&mut r, len).len(), len);
        assert_eq!(AscendingDescending::generate(&mut r, len).len(), len);
        assert_eq!(PushFront::generate(&mut r, len).len(), len);
        assert_eq!(PushMiddle::generate(&mut r, len).len(), len);
        assert_eq!(Uniform::generate(&mut r, len).len(), len);
    }
}

#[test]
fn deterministic_shapes() {
    let mut r = rng();
    assert_eq!(Sorted::generate(&mut r, 5), vec![0, 1, 2, 3, 4]);
    assert_eq!(Reverse::generate(&mut r, 5), vec![5, 4, 3, 2, 1]);
    assert_eq!(AllEqual::generate(&mut r, 4), vec![0, 0, 0, 0]);
}

#[test]
fn ascending_descending_shape() {
    let mut r = rng();
    assert_eq!(AscendingDescending::generate(&mut r, 6), vec![0, 1, 2, 6, 5, 4]);
    assert_eq!(AscendingDescending::generate(&mut r, 5), vec![0, 1, 5, 4, 3]);
}

#[test]
fn push_front_and_middle() {
    let mut r = rng();
    assert_eq!(PushFront::generate(&mut r, 5), vec![1, 2, 3, 4, 0]);
    assert_eq!(PushMiddle::generate(&mut r, 5), vec![0, 1, 3, 4, 2]);
    assert_eq!(PushFront::generate(&mut r, 0), Vec::<i32>::new());
    assert_eq!(PushMiddle::generate(&mut r, 0), Vec::<i32>::new());
    assert_eq!(PushMiddle::generate(&mut r, 1), vec![0]);
}

#[test]
fn shuffled_values_modulo_three() {
    let mut r = rng();
    let v = ShuffledValues::<3>::generate(&mut r, 9);
    assert!(v.iter().all(|x| (0..3).contains(x)));
    let mut sorted = v.clone();
    sorted.sort();
    let mut expected: Vec<i32> = Sorted::generate(&mut r, 9).iter().map(|x| x % 3).collect();
    expected.sort();
    assert_eq!(sorted, expected);
}

#[test]
fn shuffle_reorders() {
    let mut r = rng();
    let v = Shuffled::generate(&mut r, 200);
    assert_ne!(v, (0..200).collect::<Vec<i32>>());
    let mut sorted = v.clone();
    sorted.sort();
    assert_eq!(sorted, (0..200).collect::<Vec<i32>>());
}

#[test]
fn uniform_draws_values() {
    let mut r = rng();
    let v = Uniform::generate(&mut r, 100);
    assert!(v.iter().any(|&x| x != 0));
    assert!(v.iter().any(|&x| x != v[0]));
}

#[test]
fn distribution_names() {
    assert_eq!(<Sorted as InputDistribution>::name(), "Sorted");
    assert_eq!(<Reverse as InputDistribution>::name(), "Reversed");
    assert_eq!(<AllEqual as InputDistribution>::name(), "All equal");
    assert_eq!(<Shuffled as InputDistribution>::name(), "Shuffled");
    assert_eq!(<ShuffledValues<16> as InputDistribution>::name(), "Shuffled (16 values)");
    assert_eq!(<ShuffledValues<3> as InputDistribution>::name(), "Shuffled (3 values)");
    assert_eq!(<ShuffledValues<1000> as InputDistribution>::name(), "Shuffled (1000 values)");
    assert_eq!(<AscendingDescending as InputDistribution>::name(), "Asc+Dsc");
    assert_eq!(<PushFront as InputDistribution>::name(), "Push front int");
    assert_eq!(<PushMiddle as InputDistribution>::name(), "Push middle int");
    assert_eq!(<Uniform as InputDistribution>::name(), "Uniform");
}
