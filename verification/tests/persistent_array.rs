use algolib::persistent_array::PersistentArray;

#[test]
fn persistent_array_works() {
    let r = PersistentArray::new([3, 1, 4, 1, 5, 9, 2].into());
    assert_eq!(r.get(0), Some(&3));
    assert_eq!(r.get(1), Some(&1));
    assert_eq!(r.get(2), Some(&4));
    assert_eq!(r.get(3), Some(&1));
    assert_eq!(r.get(4), Some(&5));
    assert_eq!(r.get(5), Some(&9));
    assert_eq!(r.get(6), Some(&2));
    assert_eq!(r.get(7), None);

    let r2 = r.set(4, 100);
    assert_eq!(r2.get(3), Some(&1));
    assert_eq!(r2.get(4), Some(&100));
    assert_eq!(r2.get(5), Some(&9));

    let r3 = r2.set(5, 150);
    assert_eq!(r3.get(3), Some(&1));
    assert_eq!(r3.get(4), Some(&100));
    assert_eq!(r3.get(5), Some(&150));
    assert_eq!(r3.get(6), Some(&2));

    let r4 = r2.set(3, 200);
    assert_eq!(r4.get(2), Some(&4));
    assert_eq!(r4.get(3), Some(&200));
    assert_eq!(r4.get(4), Some(&100));
    assert_eq!(r4.get(5), Some(&9));
}

#[test]
fn every_length_holds_its_elements() {
    for n in 0..40usize {
        let v: Vec<usize> = (0..n).map(|x| x * x + 1).collect();
        let a = PersistentArray::new(v.clone());
        for i in 0..n {
            assert_eq!(a.get(i), Some(&v[i]));
        }
        for i in n..n + 70 {
            assert_eq!(a.get(i), None);
        }
        assert_eq!(a.get(usize::MAX), None);
    }
}

#[test]
fn set_leaves_the_old_array_as_it_was() {
    let a = PersistentArray::new(vec![String::from("a"), String::from("b"), String::from("c")]);
    let b = a.set(1, String::from("x"));
    let c = b.set(2, String::from("y"));
    assert_eq!(a.get(1).map(|s| s.as_str()), Some("b"));
    assert_eq!(a.get(2).map(|s| s.as_str()), Some("c"));
    assert_eq!(b.get(1).map(|s| s.as_str()), Some("x"));
    assert_eq!(b.get(2).map(|s| s.as_str()), Some("c"));
    assert_eq!(c.get(0).map(|s| s.as_str()), Some("a"));
    assert_eq!(c.get(1).map(|s| s.as_str()), Some("x"));
    assert_eq!(c.get(2).map(|s| s.as_str()), Some("y"));
    assert_eq!(c.get(3), None);
}
