use algolib::lis::{lis, lis_len};

#[test]
fn lis_works() {
    assert_eq!(lis_len(&[1, 2, 3, 3, 4, 5, 2], |a, b| a < b), 5);
    assert_eq!(lis_len(&[1, 2, 3, 3, 4, 5, 2], |a, b| a <= b), 6);
    assert_eq!(lis_len(&[1, 2, 3, 3, 4, 5, 2], |a, b| a > b), 2);
    assert_eq!(lis_len(&[1, 2, 3, 3, 4, 5, 2], |a, b| a >= b), 3);

    assert_eq!(
        lis(&[1, 2, 3, 3, 4, 5, 2], |a, b| a <= b),
        Vec::<usize>::from([0, 1, 2, 3, 4, 5])
    );
    assert_eq!(
        lis(&[1, 2, 3, 3, 4, 5, 2], |a, b| a >= b),
        Vec::<usize>::from([2, 3, 6])
    );
}

#[test]
fn lis_small_case() {
    assert_eq!(lis(&[], |a: &i32, b| a < b), Vec::<usize>::from([]));
    assert_eq!(lis_len(&[], |a: &i32, b| a < b), 0);

    assert_eq!(lis(&[5], |a: &i32, b| a < b), Vec::<usize>::from([0]));
    assert_eq!(lis_len(&[5], |a: &i32, b| a < b), 1);
}

#[test]
fn lis_is_a_chain_of_the_longest_length() {
    let v = [9, 1, 8, 2, 7, 3, 6, 4, 5, 0, 10];
    let k = lis(&v, |a, b| a < b);
    assert_eq!(k.len(), lis_len(&v, |a, b| a < b));
    assert_eq!(k.len(), 6);
    for w in k.windows(2) {
        assert!(w[0] < w[1]);
        assert!(v[w[0]] < v[w[1]]);
    }
    assert_eq!(lis_len(&v, |a, b| a > b), 6);
}
