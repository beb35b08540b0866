use algolib::z_algorithm::z_algorithm;

#[test]
fn z_algorithm_works() {
    assert_eq!(
        z_algorithm(b"abracadabra"),
        Vec::<usize>::from([11, 0, 0, 1, 0, 1, 0, 4, 0, 0, 1])
    );
    assert_eq!(
        z_algorithm(b"niningashi"),
        Vec::<usize>::from([10, 0, 3, 0, 1, 0, 0, 0, 0, 0])
    );
    assert_eq!(
        z_algorithm(b"aaaaaaaaaa"),
        Vec::<usize>::from([10, 9, 8, 7, 6, 5, 4, 3, 2, 1])
    );
}

#[test]
fn z_algorithm_small_case() {
    assert_eq!(z_algorithm(b""), Vec::<usize>::from([]));
    assert_eq!(z_algorithm(b"A"), Vec::<usize>::from([1]));
    assert_eq!(z_algorithm(b"AA"), Vec::<usize>::from([2, 1]));
    assert_eq!(z_algorithm(b"AB"), Vec::<usize>::from([2, 0]));
}

#[test]
fn z_algorithm_on_numbers() {
    let v: Vec<u32> = vec![7, 7, 1, 7, 7, 7, 1];
    assert_eq!(z_algorithm(&v), vec![7, 1, 0, 2, 3, 1, 0]);
}
