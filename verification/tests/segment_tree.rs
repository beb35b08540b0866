use algolib::algebra::{Identity, Magma, Max, Min};
use algolib::segment_tree::SegmentTree;

#[test]
fn segment_tree_works() {
    let mut seg = SegmentTree::<algolib::algebra::add::Add<i32>>::from(vec![
        3, 1, 4, 1, 5, 9, 2, 6, 5, 3, 5, 8, 9, 7, 9, 3, 2, 3, 8, 4,
    ]);
    assert_eq!(*seg.get(3), 1);
    assert_eq!(seg.prod(6, 12), 29);

    seg.set(10, 6);

    assert_eq!(seg.prod(6, 12), 30);
    assert_eq!(seg.all_prod(), Some(&98));
}

#[test]
fn case_empty() {
    let seg = SegmentTree::<algolib::algebra::add::Add<i32>>::from(vec![]);

    assert_eq!(seg.len(), 0);
    assert_eq!(seg.prod(0, 0), 0);
    assert_eq!(seg.all_prod(), None);
}

#[test]
fn every_range_has_its_product() {
    let v: Vec<u64> = vec![5, 2, 8, 1, 9, 3, 7];
    let seg = SegmentTree::<Max<u64>>::from(v.clone());
    let low = SegmentTree::<Min<u64>>::from(v.clone());
    let sum = SegmentTree::<algolib::algebra::add::Add<u64>>::from(v.clone());
    assert!(!seg.is_empty());
    assert_eq!(seg.len(), 7);
    for a in 0..=v.len() {
        for b in a..=v.len() {
            let slice = &v[a..b];
            assert_eq!(seg.prod(a, b), slice.iter().copied().max().unwrap_or(0));
            assert_eq!(low.prod(a, b), slice.iter().copied().min().unwrap_or(u64::MAX));
            assert_eq!(sum.prod(a, b), slice.iter().sum::<u64>());
        }
    }
    assert_eq!(seg.all_prod(), Some(&9));
    assert_eq!(low.all_prod(), Some(&1));
    assert_eq!(sum.all_prod(), Some(&35));
}

#[test]
fn set_changes_one_element() {
    let mut seg = SegmentTree::<algolib::algebra::add::Add<i64>>::from(vec![1]);
    assert_eq!(seg.all_prod(), Some(&1));
    seg.set(0, -4);
    assert_eq!(*seg.get(0), -4);
    assert_eq!(seg.prod(0, 1), -4);
    assert_eq!(seg.all_prod(), Some(&-4));

    let mut seg = SegmentTree::<Min<i32>>::from(vec![4, 9, 2, 7, 6]);
    seg.set(2, 8);
    assert_eq!(seg.prod(0, 5), 4);
    assert_eq!(seg.prod(1, 4), 7);
    assert_eq!(*seg.get(2), 8);
    assert_eq!(*seg.get(4), 6);
}

#[test]
fn operations_have_their_identities() {
    assert_eq!(<algolib::algebra::add::Add<i32> as Identity>::e(), 0);
    assert_eq!(<Max<i32> as Identity>::e(), i32::MIN);
    assert_eq!(<Min<u8> as Identity>::e(), u8::MAX);
    assert_eq!(<algolib::algebra::add::Add<u8> as Magma>::op(&200, &100), 44);
    assert_eq!(<Max<i16> as Magma>::op(&-3, &7), 7);
    assert_eq!(<Min<i16> as Magma>::op(&-3, &7), -3);
}
