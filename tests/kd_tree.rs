use agent_mapping::geo::UTMCoordinates;
use agent_mapping::kd_tree::{partition, Entry, Neighbor, UTMTree, FAR};
use quickcheck::{QuickCheck, TestResult};

fn p(x: i32, y: i32) -> UTMCoordinates {
    UTMCoordinates::new(x, y)
}

fn three_records() -> Vec<UTMCoordinates> {
    vec![p(0, 0), p(10, 0), p(0, 10)]
}

#[test]
fn trivial_knn() {
    let pts = three_records();
    let tree = UTMTree::new(&pts);
    let mut out: Vec<Neighbor> = vec![(None, 0); 2];
    tree.nearest_neighbors(p(1, 1), &mut out, None);
    assert_eq!(out, vec![(Some(0), 2), (Some(1), 82)]);
    assert_eq!(pts[out[0].0.unwrap()], p(0, 0));
    assert_eq!(pts[out[1].0.unwrap()], p(10, 0));
}

#[test]
fn distance_cap_filters() {
    let pts = three_records();
    let tree = UTMTree::new(&pts);
    let mut out: Vec<Neighbor> = vec![(Some(7), 1); 3];
    tree.nearest_neighbors(p(1, 1), &mut out, Some(5));
    assert_eq!(out, vec![(Some(0), 2), (None, FAR), (None, FAR)]);
    assert_eq!(tree.collect_nearest(p(1, 1), 3, Some(5)), vec![(Some(0), 2)]);
}

#[test]
fn cap_is_strict() {
    let pts = three_records();
    let tree = UTMTree::new(&pts);
    // (0, 0) lies at distance exactly 10 from (0, 10)... and (10, 0) at 14.1
    let r = tree.collect_nearest(p(0, 10), 3, Some(10));
    assert_eq!(r, vec![(Some(2), 0)]);
    let r = tree.collect_nearest(p(0, 10), 3, Some(11));
    assert_eq!(r, vec![(Some(2), 0), (Some(0), 100)]);
}

#[test]
fn empty_tree() {
    let pts: Vec<UTMCoordinates> = Vec::new();
    let tree = UTMTree::new(&pts);
    let mut out: Vec<Neighbor> = vec![(Some(1), 5); 3];
    tree.nearest_neighbors(p(4, 4), &mut out, None);
    assert_eq!(out, vec![(None, FAR); 3]);
    assert!(tree.collect_nearest(p(4, 4), 3, None).is_empty());
}

#[test]
fn zero_slots() {
    let pts = three_records();
    let tree = UTMTree::new(&pts);
    let mut out: Vec<Neighbor> = Vec::new();
    tree.nearest_neighbors(p(1, 1), &mut out, None);
    assert!(out.is_empty());
    assert!(tree.collect_nearest(p(1, 1), 0, None).is_empty());
}

#[test]
fn single_and_pair() {
    let one = vec![p(3, 4)];
    let tree = UTMTree::new(&one);
    assert_eq!(tree.collect_nearest(p(0, 0), 2, None), vec![(Some(0), 25)]);
    let two = vec![p(5, 5), p(1, 1)];
    let tree = UTMTree::new(&two);
    assert_eq!(tree.collect_nearest(p(0, 0), 2, None), vec![(Some(1), 2), (Some(0), 50)]);
    assert_eq!(tree.collect_nearest(p(6, 6), 1, None), vec![(Some(0), 2)]);
}

#[test]
fn equal_points_are_all_found() {
    let pts = vec![p(2, 2); 6];
    let tree = UTMTree::new(&pts);
    let r = tree.collect_nearest(p(2, 3), 6, None);
    assert_eq!(r.len(), 6);
    let mut idx: Vec<usize> = r.iter().map(|n| n.0.unwrap()).collect();
    idx.sort();
    assert_eq!(idx, vec![0, 1, 2, 3, 4, 5]);
    assert!(r.iter().all(|n| n.1 == 1));
}

fn brute_force(pts: &[UTMCoordinates], q: UTMCoordinates, k: usize, max_dist: Option<u64>) -> Vec<u128> {
    let mut d: Vec<u128> = pts
        .iter()
        .map(|a| a.squared_dist(q))
        .filter(|&d| match max_dist {
            None => true,
            Some(m) => d < (m as u128) * (m as u128),
        })
        .collect();
    d.sort();
    d.truncate(k);
    d
}

fn knn_matches_brute_force(raw: Vec<(i16, i16)>, q: (i16, i16), k: u8, cap: Option<u16>) -> TestResult {
    let pts: Vec<UTMCoordinates> = raw.iter().map(|&(x, y)| p(x as i32, y as i32)).collect();
    let q = p(q.0 as i32, q.1 as i32);
    let k = k as usize % 12;
    let max_dist = cap.map(|c| c as u64);
    let tree = UTMTree::new(&pts);
    let got = tree.collect_nearest(q, k, max_dist);
    let expected = brute_force(&pts, q, k, max_dist);
    let dists: Vec<u128> = got.iter().map(|n| n.1).collect();
    if dists != expected {
        return TestResult::failed();
    }
    let mut seen = Vec::new();
    for n in &got {
        let i = n.0.unwrap();
        if pts[i].squared_dist(q) != n.1 || seen.contains(&i) {
            return TestResult::failed();
        }
        seen.push(i);
    }
    TestResult::passed()
}

#[test]
fn knn_correctness() {
    QuickCheck::new().tests(500).quickcheck(
        knn_matches_brute_force as fn(Vec<(i16, i16)>, (i16, i16), u8, Option<u16>) -> TestResult,
    );
    // points at increasing distance from the query, as in a spiral
    let q = p(100, -50);
    let pts: Vec<UTMCoordinates> = (1..40)
        .map(|i: i32| p(100 + i * i * if i % 2 == 0 { 1 } else { -1 }, -50 + 3 * i))
        .collect();
    let tree = UTMTree::new(&pts);
    let got = tree.collect_nearest(q, 5, Some(200));
    let idx: Vec<usize> = got.iter().map(|n| n.0.unwrap()).collect();
    assert_eq!(idx, vec![0, 1, 2, 3, 4]);
    assert!(got.iter().all(|n| n.1 < 200 * 200));
}

fn entries(keys: &[i32]) -> Vec<Entry> {
    keys.iter().enumerate().map(|(i, &k)| (i, p(k, -k))).collect()
}

fn check_partition(keys: &[i32], y_axis: bool) {
    let mut v = entries(keys);
    let i = partition(&mut v, y_axis);
    let key = |e: &Entry| if y_axis { e.1.y } else { e.1.x };
    let pivot = key(&v[v.len() - 1]);
    assert!(v[..i].iter().all(|e| key(e) < pivot));
    assert!(v[i..v.len() - 1].iter().all(|e| key(e) >= pivot));
    let mut idx: Vec<usize> = v.iter().map(|e| e.0).collect();
    idx.sort();
    assert_eq!(idx, (0..keys.len()).collect::<Vec<usize>>());
}

#[test]
fn partition_correctness() {
    check_partition(&[5], false);
    check_partition(&[2, 1], false);
    check_partition(&[1, 1], false);
    check_partition(&[3, 3, 3, 3], true);
    check_partition(&[9, 1, 8, 2, 7, 3, 6, 4, 5], false);
    check_partition(&[9, 1, 8, 2, 7, 3, 6, 4, 5], true);
    let mut v = entries(&[1, 1]);
    assert_eq!(partition(&mut v, false), 0);
    let mut v = entries(&[2, 1]);
    assert_eq!(partition(&mut v, false), 1);
    assert_eq!(v[1].1.x, 2);
}

fn partition_property(keys: Vec<i32>, y_axis: bool) -> TestResult {
    if keys.is_empty() {
        return TestResult::discard();
    }
    check_partition(&keys, y_axis);
    TestResult::passed()
}

#[test]
fn partition_random() {
    QuickCheck::new()
        .tests(500)
        .quickcheck(partition_property as fn(Vec<i32>, bool) -> TestResult);
}
