use agent_mapping::buildings::Building;
use agent_mapping::geo::{Region, UTMCoordinates};
use agent_mapping::quadtree::{map_vehicles, min_region, reduce_region_point, reduce_regions};
use agent_mapping::vehicle_sim::Agent;
use quickcheck::{QuickCheck, TestResult};

fn p(x: i32, y: i32) -> UTMCoordinates {
    UTMCoordinates::new(x, y)
}

fn building(id: u32, x: i32, y: i32, half: i32) -> Building {
    Building::new(id, (4 * half * half) as u64, p(x, y), Region::new(x + half, x - half, y + half, y - half))
}

fn agent(id: u32, x: i32, y: i32) -> Agent {
    Agent::new(id, 0, p(x, y))
}

fn nearest<'a>(agents: &'a [Agent], buildings: &'a [Building]) -> impl Fn(usize, &[usize]) -> usize + Sync + 'a {
    move |a: usize, cands: &[usize]| -> usize {
        let pos = agents[a].position;
        *cands
            .iter()
            .min_by_key(|&&b| buildings[b].centroid.squared_dist(pos))
            .unwrap()
    }
}

#[test]
fn nearest_centroid() {
    let buildings = vec![
        building(10, 0, 0, 1),
        building(11, 100, 0, 1),
        building(12, 0, 100, 1),
        building(13, 100, 100, 1),
    ];
    let agents = vec![agent(1, 1, 1)];
    let out = map_vehicles(10, &agents, &buildings, nearest(&agents, &buildings)).unwrap();
    assert_eq!(out, vec![(0, 0)]);
    assert_eq!(buildings[out[0].1].id, 10);
}

#[test]
fn duplication_tolerance() {
    // one building across both center lines
    let buildings = vec![building(7, 50, 50, 30)];
    let agents: Vec<Agent> = (0..40).map(|i| agent(i, 25 + (i as i32 * 7) % 50, 25 + (i as i32 * 13) % 50)).collect();
    for thr in [1usize, 2, 5] {
        let out = map_vehicles(thr, &agents, &buildings, nearest(&agents, &buildings)).unwrap();
        assert_eq!(out.len(), agents.len());
        let mut ids: Vec<usize> = out.iter().map(|&(a, _)| a).collect();
        ids.sort();
        ids.dedup();
        assert_eq!(ids.len(), agents.len());
        assert!(out.iter().all(|&(_, b)| b == 0));
    }
}

#[test]
fn results_follow_z_order() {
    let buildings = vec![building(1, 0, 0, 1), building(2, 100, 100, 1)];
    // given from northeast to southwest
    let agents = vec![agent(0, 99, 99), agent(1, 60, 10), agent(2, 10, 60), agent(3, 1, 1)];
    let out = map_vehicles(10, &agents, &buildings, nearest(&agents, &buildings)).unwrap();
    let order: Vec<usize> = out.iter().map(|&(a, _)| a).collect();
    assert_eq!(order, vec![3, 1, 2, 0]);
    assert_eq!(out, vec![(3, 0), (1, 0), (2, 0), (0, 1)]);
}

#[test]
fn split_cells_use_local_buildings() {
    // two clusters far apart; with threshold 2 the clusters are mapped apart
    let buildings = vec![
        building(0, 10, 10, 2),
        building(1, 12, 12, 2),
        building(2, 90, 90, 2),
        building(3, 92, 92, 2),
    ];
    let agents = vec![agent(0, 9, 9), agent(1, 13, 13), agent(2, 89, 89), agent(3, 93, 93)];
    let seen = std::sync::Mutex::new(Vec::new());
    let mapper = |a: usize, cands: &[usize]| -> usize {
        seen.lock().unwrap().push((a, cands.to_vec()));
        nearest(&agents, &buildings)(a, cands)
    };
    let out = map_vehicles(2, &agents, &buildings, mapper).unwrap();
    assert_eq!(out, vec![(0, 0), (1, 1), (2, 2), (3, 3)]);
    for (a, cands) in seen.lock().unwrap().iter() {
        assert!(cands.len() < 4, "agent {} saw {:?}", a, cands);
    }
}

#[test]
fn empty_cells_drop_agents() {
    // the building sits in the southwest quadrant only
    let buildings = vec![building(0, 10, 10, 2), building(1, 12, 10, 2)];
    let agents = vec![agent(0, 11, 11), agent(1, 12, 9), agent(2, 100, 100), agent(3, 99, 100)];
    let out = map_vehicles(2, &agents, &buildings, nearest(&agents, &buildings)).unwrap();
    let mapped: Vec<usize> = out.iter().map(|&(a, _)| a).collect();
    assert!(mapped.contains(&0) && mapped.contains(&1));
    assert!(!mapped.contains(&2) && !mapped.contains(&3));
}

#[test]
fn degenerate_region_is_refused() {
    let agents = vec![agent(0, 5, 5)];
    let buildings = vec![Building::new(0, 0, p(5, 5), Region::new(5, 5, 5, 5))];
    assert!(map_vehicles(1, &agents, &buildings, nearest(&agents, &buildings)).is_none());
    let none_a: Vec<Agent> = Vec::new();
    let none_b: Vec<Building> = Vec::new();
    assert!(map_vehicles(1, &none_a, &none_b, |_a: usize, c: &[usize]| -> usize { c[0] }).is_none());
}

#[test]
fn no_buildings_maps_nothing() {
    let agents = vec![agent(0, 0, 0), agent(1, 10, 10)];
    let buildings: Vec<Building> = Vec::new();
    let out = map_vehicles(1, &agents, &buildings, |_a: usize, c: &[usize]| -> usize { c[0] }).unwrap();
    assert!(out.is_empty());
}

#[test]
fn region_folding() {
    let r = min_region();
    assert!(r.west > r.east && r.south > r.north);
    let r = reduce_region_point(r, p(3, -2));
    assert_eq!(r, Region::new(3, 3, -2, -2));
    let r = reduce_regions(r, &Region::new(10, 5, 0, -1));
    assert_eq!(r, Region::new(10, 3, 0, -2));
    let r = reduce_region_point(r, p(-7, 4));
    assert_eq!(r, Region::new(10, -7, 4, -2));
}

fn mapping_property(raw_agents: Vec<(u8, u8)>, raw_buildings: Vec<(u8, u8)>, thr: u8) -> TestResult {
    if raw_buildings.is_empty() || raw_agents.is_empty() {
        return TestResult::discard();
    }
    let agents: Vec<Agent> = raw_agents
        .iter()
        .enumerate()
        .map(|(i, &(x, y))| agent(i as u32, x as i32, y as i32))
        .collect();
    let buildings: Vec<Building> = raw_buildings
        .iter()
        .enumerate()
        .map(|(i, &(x, y))| building(i as u32, x as i32, y as i32, 3))
        .collect();
    let calls = std::sync::Mutex::new(Vec::new());
    let mapper = |a: usize, cands: &[usize]| -> usize {
        let b = nearest(&agents, &buildings)(a, cands);
        calls.lock().unwrap().push((a, b));
        b
    };
    let out = match map_vehicles(thr as usize % 8, &agents, &buildings, mapper) {
        Some(out) => out,
        None => return TestResult::discard(),
    };
    let calls = calls.into_inner().unwrap();
    // no agent twice, every pair one that the mapper returned for that agent
    let mut ids: Vec<usize> = out.iter().map(|&(a, _)| a).collect();
    ids.sort();
    ids.dedup();
    let once = ids.len() == out.len();
    let each_call_once = calls.len() == out.len();
    let conform = out.iter().all(|pair| calls.contains(pair));
    TestResult::from_bool(once && each_call_once && conform)
}

#[test]
fn mapping_runs_are_single_assignment() {
    QuickCheck::new()
        .tests(300)
        .quickcheck(mapping_property as fn(Vec<(u8, u8)>, Vec<(u8, u8)>, u8) -> TestResult);
}
