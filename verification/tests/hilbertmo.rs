use algolib::hilbertmo::{hilbert_ord, mo, visiting_order, Moable, Pid};
use std::collections::HashSet;

#[test]
fn hilbert() {
    let ans = [
        [0, 3, 4, 5, 58, 59, 60, 63],
        [1, 2, 7, 6, 57, 56, 61, 62],
        [14, 13, 8, 9, 54, 55, 50, 49],
        [15, 12, 11, 10, 53, 52, 51, 48],
        [16, 17, 30, 31, 32, 33, 46, 47],
        [19, 18, 29, 28, 35, 34, 45, 44],
        [20, 23, 24, 27, 36, 39, 40, 43],
        [21, 22, 25, 26, 37, 38, 41, 42],
    ];
    for i in 0..8 {
        for j in 0..8 {
            assert_eq!(hilbert_ord((i, j)), ans[i as usize][j as usize]);
        }
    }
}

#[test]
fn it_works() {
    let g = [3, 1, 4, 1, 5, 9, 2, 6, 5, 3, 5, 8, 9, 7];
    println!(
        "{:?}",
        mo(
            Pid::new(&g),
            &[(1, 2), (5, 10), (5, 11), (4, 7), (6, 12), (5, 12), (5, 13),]
        )
    );
}

#[test]
fn hilbert_covers_the_corners() {
    assert_eq!(hilbert_ord((0, 0)), 0);
    assert_eq!(hilbert_ord((u32::MAX, 0)), u64::MAX);
}

#[test]
fn neighbours_on_the_curve_are_neighbours_in_the_square() {
    let mut at = vec![(0u32, 0u32); 256];
    for x in 0..16u32 {
        for y in 0..16u32 {
            at[hilbert_ord((x, y)) as usize] = (x, y);
        }
    }
    for w in at.windows(2) {
        let d = w[0].0.abs_diff(w[1].0) + w[0].1.abs_diff(w[1].1);
        assert_eq!(d, 1);
    }
}

#[test]
fn mo_counts_the_different_values_of_each_range() {
    let g = [3, 1, 4, 1, 5, 9, 2, 6, 5, 3, 5, 8, 9, 7];
    let queries = [(1, 2), (5, 10), (5, 11), (4, 7), (6, 12), (5, 12), (5, 13)];
    assert_eq!(mo(Pid::new(&g), &queries), vec![1, 5, 5, 3, 5, 6, 6]);
    let mut all = Vec::new();
    for l in 0..=g.len() as u32 {
        for r in l..=g.len() as u32 {
            all.push((l, r));
        }
    }
    let out = mo(Pid::new(&g), &all);
    for (q, u) in all.iter().zip(out.iter()) {
        let want: HashSet<i32> = g[q.0 as usize..q.1 as usize].iter().copied().collect();
        assert_eq!(*u, want.len());
    }
    assert_eq!(mo(Pid::new(&g), &[]), Vec::<usize>::new());
}

#[test]
fn the_state_follows_the_range() {
    let g = [7u8, 7, 8];
    let p = Pid::new(&g);
    let mut v = <Pid<u8> as Moable>::origin();
    assert_eq!(<Pid<u8> as Moable>::convert(&v), 0);
    p.inc_r((0, 0), &mut v);
    p.inc_r((0, 1), &mut v);
    assert_eq!(<Pid<u8> as Moable>::convert(&v), 1);
    p.inc_r((0, 2), &mut v);
    assert_eq!(<Pid<u8> as Moable>::convert(&v), 2);
    p.inc_l((0, 3), &mut v);
    assert_eq!(<Pid<u8> as Moable>::convert(&v), 2);
    p.inc_l((1, 3), &mut v);
    assert_eq!(<Pid<u8> as Moable>::convert(&v), 1);
    p.dec_r((2, 3), &mut v);
    assert_eq!(<Pid<u8> as Moable>::convert(&v), 0);
    p.dec_l((2, 2), &mut v);
    assert_eq!(<Pid<u8> as Moable>::convert(&v), 1);
}

#[test]
fn queries_are_visited_along_the_curve() {
    // the places on the curve are 63, 2, 0, 21, 1 and 3
    let rs = [(0, 7), (1, 1), (0, 0), (7, 0), (1, 0), (0, 1)];
    assert_eq!(visiting_order(&rs), vec![2, 4, 1, 5, 3, 0]);
    assert_eq!(visiting_order(&[]), Vec::<usize>::new());
    // queries at one place keep their order
    assert_eq!(visiting_order(&[(1, 1), (0, 0), (1, 1), (0, 0)]), vec![1, 3, 0, 2]);
}
