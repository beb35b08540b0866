use algolib::union_find::UnionFind;

#[test]
fn union_find_works() {
    let mut uf = UnionFind::new(5);

    assert_eq!(uf.find(0), 0);
    assert_eq!(uf.size(0), 1);

    uf.union(0, 2);
    uf.union(1, 3);

    assert_eq!(uf.count(), 3);
    assert_eq!(uf.size(0), 2);
    assert_eq!(uf.size(4), 1);
    assert!(uf.same(0, 2));
    assert!(!uf.same(0, 3));
}

#[test]
fn union_keeps_the_root_of_the_larger_set() {
    let mut uf = UnionFind::new(6);
    assert_eq!(uf.union(0, 1), 1);
    assert_eq!(uf.union(2, 1), 1);
    assert_eq!(uf.union(3, 4), 4);
    assert_eq!(uf.union(4, 0), 1);
    assert_eq!(uf.union(0, 3), 1);
    assert_eq!(uf.len(), 6);
    assert_eq!(uf.count(), 2);
    assert_eq!(uf.size_imu(3), 5);
    assert_eq!(uf.find_imu(3), 1);
    assert!(uf.same_imu(2, 4));
    assert!(!uf.same_imu(2, 5));
}

#[test]
fn groups_list_each_set_with_its_root_first() {
    let mut uf = UnionFind::new(6);
    uf.union(0, 2);
    uf.union(4, 2);
    uf.union(5, 3);
    let expected: Vec<Vec<usize>> = vec![vec![1], vec![2, 0, 4], vec![3, 5]];
    assert_eq!(uf.groups_imu(), expected);
    assert_eq!(uf.groups(), expected);
    assert_eq!(uf.groups_imu(), expected);
    assert_eq!(uf.count(), 3);
}

#[test]
fn find_leaves_the_sets_as_they_are() {
    let mut uf = UnionFind::new(4);
    uf.union(0, 1);
    uf.union(2, 3);
    uf.union(1, 3);
    let before = uf.groups_imu();
    for i in 0..4 {
        assert_eq!(uf.find(i), 3);
    }
    assert_eq!(uf.groups_imu(), before);
}
