use algolib::radix_heap::{Radix, RadixHeap};

#[test]
fn radix_heap_works() {
    let mut h = RadixHeap::new();
    h.push(3);
    h.push(0);
    h.push(-2);
    h.push(3);
    h.push(-5);
    h.push(138);
    h.push(-34);
    h.push(61);
    h.push(-213);
    h.push(45);

    assert_eq!(h.pop(), Some(138));
    assert_eq!(h.pop(), Some(61));
    assert_eq!(h.pop(), Some(45));
    assert_eq!(h.pop(), Some(3));
    assert_eq!(h.pop(), Some(3));
    assert_eq!(h.pop(), Some(0));
    assert_eq!(h.pop(), Some(-2));
    assert_eq!(h.pop(), Some(-5));
    assert_eq!(h.pop(), Some(-34));
    assert_eq!(h.pop(), Some(-213));
    assert_eq!(h.pop(), None);
}

#[test]
fn distance_is_the_place_of_the_highest_differing_bit() {
    assert_eq!(5u64.dist(&5u64), 0);
    assert_eq!(5u64.dist(&4u64), 1);
    assert_eq!(0u64.dist(&u64::MAX), 64);
    assert_eq!(0b1000u8.dist(&0b0111u8), 4);
    assert_eq!(0u8.dist(&255u8), 8);
    assert_eq!(0x8000u16.dist(&0x7fffu16), 16);
    assert_eq!(6u32.dist(&2u32), 3);
    assert_eq!(1u128.dist(&(1u128 << 100)), 101);
    assert_eq!(u128::MAX.dist(&0), 128);
    assert_eq!((1u128 << 64).dist(&((1u128 << 64) | 7)), 3);
    assert_eq!(0usize.dist(&usize::MAX), usize::BITS);
    assert_eq!(12usize.dist(&8usize), 3);
}

#[test]
fn distance_of_signed_keys_goes_by_their_order() {
    assert_eq!((-7i32).dist(&-7i32), 0);
    assert_eq!((-1i8).dist(&0i8), 8);
    assert_eq!(i8::MIN.dist(&i8::MAX), 8);
    assert_eq!((-2i16).dist(&-1i16), 1);
    assert_eq!((-1i32).dist(&0i32), 32);
    assert_eq!(3i64.dist(&-3i64), 64);
    assert_eq!((-4i64).dist(&-1i64), 2);
    assert_eq!(i128::MIN.dist(&i128::MAX), 128);
    assert_eq!((-8i128).dist(&-5i128), 2);
    assert_eq!((-1isize).dist(&0isize), isize::BITS);
    assert_eq!(5isize.dist(&4isize), 1);
}

#[test]
fn keys_have_their_width_and_their_greatest_value() {
    assert_eq!(<u8 as Radix>::BITS, 8);
    assert_eq!(<i16 as Radix>::BITS, 16);
    assert_eq!(<u128 as Radix>::BITS, 128);
    assert_eq!(<isize as Radix>::BITS, isize::BITS);
    assert_eq!(<u8 as Radix>::max_value(), 255);
    assert_eq!(<i64 as Radix>::max_value(), i64::MAX);
    assert!(3u8.exceeds(&2));
    assert!(!3u8.exceeds(&3));
    assert!(!(-3i8).exceeds(&2));
}

#[test]
fn pops_come_in_descending_order() {
    let mut h: RadixHeap<u64> = RadixHeap::new();
    for v in [90u64, 17, 64, 64, 3, 88, 0, 41] {
        h.push(v);
    }
    let mut last = h.pop().unwrap();
    assert_eq!(last, 90);
    let mut seed = 12345u64;
    let mut popped = 1;
    while let Some(&top) = h.peek() {
        // push keys that do not exceed what came out last
        seed = seed.wrapping_mul(6364136223846793005).wrapping_add(1442695040888963407);
        if popped < 40 {
            let v = (seed >> 33) % (last + 1);
            assert!(h.try_push(v));
        }
        let now = h.pop().unwrap();
        assert!(now <= last);
        assert!(now >= top);
        last = now;
        popped += 1;
    }
    assert!(h.is_empty());
}

#[test]
fn len_counts_pushes_less_pops() {
    let mut h: RadixHeap<i16> = RadixHeap::new();
    assert_eq!(h.len(), 0);
    assert!(h.is_empty());
    for (n, v) in [5i16, -5, 100, -100, 0].iter().enumerate() {
        h.push(*v);
        assert_eq!(h.len(), n + 1);
    }
    for n in (0..5).rev() {
        assert!(h.pop().is_some());
        assert_eq!(h.len(), n);
    }
    assert_eq!(h.pop(), None);
    assert_eq!(h.len(), 0);
}

#[test]
fn try_push_tests_the_floor() {
    let mut h: RadixHeap<u32> = RadixHeap::new();
    h.push(10);
    h.push(7);
    assert_eq!(h.pop(), Some(10));
    // the floor is 10 now
    assert!(!h.try_push(11));
    assert_eq!(h.len(), 1);
    assert!(h.try_push(10));
    assert!(h.try_push(2));
    assert_eq!(h.len(), 3);
    assert_eq!(h.pop(), Some(10));
    assert!(!h.try_push(u32::MAX));
    assert_eq!(h.pop(), Some(7));
    assert!(!h.try_push(8));
    assert_eq!(h.pop(), Some(2));
    assert_eq!(h.pop(), None);
}

#[test]
fn a_heap_that_ran_empty_takes_any_key() {
    let mut h: RadixHeap<u8> = RadixHeap::new();
    h.push(9);
    h.push(4);
    assert_eq!(h.pop(), Some(9));
    assert_eq!(h.pop(), Some(4));
    assert!(h.is_empty());
    // equal to the floor before the heap ran empty, and above it
    assert!(h.try_push(4));
    assert!(h.try_push(200));
    assert!(h.try_push(u8::MAX));
    assert_eq!(h.pop(), Some(u8::MAX));
    assert_eq!(h.pop(), Some(200));
    assert_eq!(h.pop(), Some(4));
    assert_eq!(h.pop(), None);
}

#[test]
fn peek_shows_what_pop_yields() {
    let mut h: RadixHeap<i64> = RadixHeap::new();
    assert_eq!(h.peek(), None);
    h.push(-3);
    assert_eq!(h.peek(), Some(&-3));
    h.push(12);
    assert_eq!(h.peek(), Some(&12));
    assert_eq!(*h.peek_unchecked(), 12);
    h.push(5);
    assert_eq!(h.peek(), Some(&12));
    assert_eq!(h.pop(), Some(12));
    assert_eq!(h.peek(), Some(&5));
    assert_eq!(h.len(), 2);
}

#[test]
fn equal_keys_all_come_out() {
    let mut h: RadixHeap<u16> = RadixHeap::new();
    for _ in 0..5 {
        h.push(7);
    }
    h.push(6);
    for _ in 0..5 {
        assert_eq!(h.pop(), Some(7));
    }
    assert_eq!(h.pop(), Some(6));
    assert_eq!(h.pop(), None);
}

fn sorts<T: Radix + PartialOrd + std::fmt::Debug>(keys: Vec<T>) {
    let mut h = RadixHeap::new();
    for k in keys.iter() {
        h.push(*k);
    }
    let mut out = Vec::new();
    while let Some(k) = h.pop() {
        out.push(k);
    }
    assert_eq!(out.len(), keys.len());
    for w in out.windows(2) {
        assert!(w[0] >= w[1]);
    }
}

#[test]
fn every_integer_type_is_a_key() {
    sorts::<u8>(vec![0, 255, 7, 128, 127, 1]);
    sorts::<u16>(vec![0, 65535, 256, 255, 1]);
    sorts::<u32>(vec![0, u32::MAX, 1 << 31, (1 << 31) - 1]);
    sorts::<u64>(vec![0, u64::MAX, 1 << 63, (1 << 63) - 1, 42]);
    sorts::<u128>(vec![0, u128::MAX, 1 << 64, (1 << 64) - 1, 1 << 127, 9]);
    sorts::<usize>(vec![0, usize::MAX, 1, usize::MAX / 2]);
    sorts::<i8>(vec![0, -1, i8::MIN, i8::MAX, 1, -128, 64]);
    sorts::<i16>(vec![0, -1, i16::MIN, i16::MAX, 300, -300]);
    sorts::<i32>(vec![0, -1, i32::MIN, i32::MAX, 70000, -70000]);
    sorts::<i64>(vec![0, -1, i64::MIN, i64::MAX, 1 << 40, -(1 << 40)]);
    sorts::<i128>(vec![0, -1, i128::MIN, i128::MAX, 1 << 100, -(1 << 100)]);
    sorts::<isize>(vec![0, -1, isize::MIN, isize::MAX, 5, -5]);
}
