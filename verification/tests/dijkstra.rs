use algolib::graph::dijkstra::Pair;
use algolib::graph::{Dijkstra, Weight};
use algolib::radix_heap::{Radix, RadixHeap};

#[test]
fn dijkstra_works() {
    let mut d = Dijkstra::new(3);
    d.add_edge(1, 2, 3);

    assert_eq!(d.distance(0, 2), None);

    d.add_edge(0, 1, 3);
    d.add_edge(0, 2, 7);

    assert_eq!(d.distance(0, 2), Some(6));

    d.add_edge(0, 2, 5);

    assert_eq!(d.distance(0, 2), Some(5));
}

#[test]
fn a_node_is_at_zero_from_itself() {
    let mut d: Dijkstra<u32> = Dijkstra::new(2);
    assert_eq!(d.distance(0, 0), Some(0));
    assert_eq!(d.distance(1, 1), Some(0));
    assert_eq!(d.distance(0, 1), None);
    d.add_edge(0, 0, 4);
    d.add_edge(0, 1, 0);
    assert_eq!(d.distance(0, 0), Some(0));
    assert_eq!(d.distance(0, 1), Some(0));
    assert_eq!(d.distance(1, 0), None);
}

#[test]
fn edges_lead_one_way() {
    let mut d: Dijkstra<i64> = Dijkstra::new(4);
    d.add_edge(0, 1, 1);
    d.add_edge(1, 2, 1);
    d.add_edge(2, 3, 1);
    d.add_edge(3, 0, 10);
    assert_eq!(d.distance(0, 3), Some(3));
    assert_eq!(d.distance(3, 2), Some(12));
    assert_eq!(d.distance(2, 1), Some(12));
}

#[test]
fn lengths_that_do_not_fit_count_as_not_reached() {
    let mut d: Dijkstra<u8> = Dijkstra::new(4);
    d.add_edge(0, 1, 200);
    d.add_edge(1, 2, 100);
    d.add_edge(1, 3, 55);
    d.add_edge(0, 3, 254);
    assert_eq!(d.distance(0, 1), Some(200));
    // 300 is no `u8`
    assert_eq!(d.distance(0, 2), None);
    // 254 is below the greatest weight, 255 is the greatest weight itself
    assert_eq!(d.distance(0, 3), Some(254));
    let mut e: Dijkstra<u8> = Dijkstra::new(2);
    e.add_edge(0, 1, 255);
    assert_eq!(e.distance(0, 1), None);
}

#[test]
fn the_search_stops_at_the_target() {
    // 0 -> 1 -> 2, and beyond the target 2 a chain 2 -> 3 -> 4 -> 5
    let mut near: Dijkstra<u64> = Dijkstra::new(3);
    near.add_edge(0, 1, 2);
    near.add_edge(1, 2, 2);
    let mut far: Dijkstra<u64> = Dijkstra::new(6);
    far.add_edge(0, 1, 2);
    far.add_edge(1, 2, 2);
    far.add_edge(2, 3, 1);
    far.add_edge(3, 4, 1);
    far.add_edge(4, 5, 1);
    assert_eq!(near.search(0, 2), (Some(4), 2));
    // the edges that leave the target, and all beyond it, are never followed
    assert_eq!(far.search(0, 2), (Some(4), 2));
    assert_eq!(far.search(0, 5), (Some(7), 5));
    assert_eq!(far.search(0, 0), (Some(0), 0));
}

#[test]
fn a_stale_entry_is_passed_over() {
    // node 1 is queued at 10 first and then at 2; node 4 lies beyond both
    let mut d: Dijkstra<u32> = Dijkstra::new(5);
    d.add_edge(0, 1, 10);
    d.add_edge(0, 2, 1);
    d.add_edge(2, 1, 1);
    d.add_edge(1, 3, 1);
    d.add_edge(3, 4, 20);
    // settled: 0 (2 edges), 2 (1 edge), 1 (1 edge), 3 (1 edge); then the
    // stale entry of 1 at 10 comes out and its edge is not followed again
    assert_eq!(d.search(0, 4), (Some(23), 5));
    assert_eq!(d.distance(0, 1), Some(2));
    assert_eq!(d.distance(0, 3), Some(3));
}

#[test]
fn a_search_that_reaches_nothing_more_follows_each_edge_once() {
    let mut d: Dijkstra<u16> = Dijkstra::new(4);
    d.add_edge(0, 1, 5);
    d.add_edge(1, 0, 5);
    d.add_edge(0, 1, 3);
    d.add_edge(2, 3, 1);
    // from 0 the nodes 0 and 1 are settled: 3 edges; 2 and 3 are not reached
    assert_eq!(d.search(0, 3), (None, 3));
    assert_eq!(d.search(2, 0), (None, 1));
}

fn brute(n: usize, edges: &[(usize, usize, u64)], from: usize) -> Vec<Option<u64>> {
    let mut best: Vec<Option<u64>> = vec![None; n];
    best[from] = Some(0);
    for _ in 0..n {
        for &(a, b, w) in edges {
            if let Some(x) = best[a] {
                let y = x + w;
                if best[b].map_or(true, |z| y < z) {
                    best[b] = Some(y);
                }
            }
        }
    }
    best
}

#[test]
fn distances_agree_with_relaxing_every_edge_again_and_again() {
    let mut seed = 2024u64;
    let mut next = move || {
        seed = seed.wrapping_mul(6364136223846793005).wrapping_add(1442695040888963407);
        (seed >> 33) as usize
    };
    for round in 0..30 {
        let n = 2 + round % 9;
        let m = next() % (3 * n);
        let mut g: Dijkstra<u64> = Dijkstra::new(n);
        let mut edges = Vec::new();
        for _ in 0..m {
            let (a, b, w) = (next() % n, next() % n, (next() % 50) as u64);
            g.add_edge(a, b, w);
            edges.push((a, b, w));
        }
        for from in 0..n {
            let want = brute(n, &edges, from);
            for to in 0..n {
                assert_eq!(g.distance(from, to), want[to]);
            }
        }
    }
}

#[test]
fn entries_go_by_their_length_alone() {
    // the distance of two entries is that of their lengths, whatever the nodes
    assert_eq!(Pair(1, 5u32).dist(&Pair(9, 4u32)), 1);
    assert_eq!(Pair(7, 12u32).dist(&Pair(7, 12u32)), 0);
    assert_eq!(Pair(0, 12u32).dist(&Pair(3, 12u32)), 0);
    assert_eq!(Pair(0, 0u8).dist(&Pair(0, 255u8)), 8);
    // the shorter entry is the greater key
    assert!(Pair(0, 3u32).exceeds(&Pair(0, 4u32)));
    assert!(!Pair(0, 4u32).exceeds(&Pair(0, 3u32)));
    assert!(!Pair(0, 4u32).exceeds(&Pair(5, 4u32)));
    let top = <Pair<i16> as Radix>::max_value();
    assert_eq!((top.0, top.1), (usize::MAX, i16::MIN));
    assert_eq!(<Pair<u64> as Radix>::BITS, 64);
}

#[test]
fn a_heap_of_entries_yields_the_shortest_first() {
    let mut h = RadixHeap::new();
    h.push(Pair(4, 9u32));
    h.push(Pair(2, 3u32));
    h.push(Pair(8, 6u32));
    let a = h.pop().unwrap();
    assert_eq!((a.0, a.1), (2, 3));
    // longer entries are welcome, shorter ones are not
    assert!(h.try_push(Pair(1, 3)));
    assert!(!h.try_push(Pair(1, 2)));
    let b = h.pop().unwrap();
    assert_eq!((b.0, b.1), (1, 3));
    let c = h.pop().unwrap();
    assert_eq!((c.0, c.1), (8, 6));
    let d = h.pop().unwrap();
    assert_eq!((d.0, d.1), (4, 9));
    assert!(h.pop().is_none());
}

#[test]
fn weights_add_up_or_tell_that_they_do_not_fit() {
    assert_eq!(<u8 as Weight>::zero(), 0);
    assert_eq!(<i32 as Weight>::min_value(), i32::MIN);
    assert_eq!(200u8.checked_sum(&55), Some(255));
    assert_eq!(200u8.checked_sum(&56), None);
    assert_eq!((-100i8).checked_sum(&-29), None);
    assert_eq!((-100i8).checked_sum(&-28), Some(-128));
    assert_eq!(u128::MAX.checked_sum(&0), Some(u128::MAX));
}
