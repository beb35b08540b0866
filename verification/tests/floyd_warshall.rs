use algolib::graph::FloydWarshall;

#[test]
fn floyd_warshall_works() {
    let mut v = FloydWarshall::new(4);
    v.add_edge(0, 1, 5);
    v.add_edge(0, 2, -1);
    v.add_edge(1, 3, 3);
    v.add_edge(2, 3, 1);
    v.add_edge(3, 2, 4);

    let r = v.apply();
    assert_eq!(r[0][1], Some(5));
    assert_eq!(r[1][0], None);
    assert_eq!(r[0][3], Some(0));
    assert_eq!(r[0][2], Some(-1));
}

#[test]
fn add_edge_keeps_the_lesser_weight() {
    let mut v = FloydWarshall::<u32>::new(2);
    v.add_edge(0, 1, 7);
    v.add_edge(0, 1, 9);
    v.add_edge(1, 0, 4);
    v.add_edge(1, 0, 2);
    let r = v.apply();
    assert_eq!(r[0], [Some(0), Some(7)]);
    assert_eq!(r[1], [Some(2), Some(0)]);
}

#[test]
fn sums_that_do_not_fit_are_left_out() {
    let mut v = FloydWarshall::<u8>::new(3);
    v.add_edge(0, 1, 200);
    v.add_edge(1, 2, 100);
    let r = v.apply();
    assert_eq!(r[0][1], Some(200));
    assert_eq!(r[0][2], None);
    assert_eq!(r[2][0], None);
}

#[test]
fn the_table_of_no_nodes_is_empty() {
    let mut v = FloydWarshall::<i64>::new(0);
    let _ = v.apply();
}
