//! Mapping agents to buildings over a Morton-order quadtree: agents sorted by
//! Z-code and buildings are split together into quadrants until a cell holds
//! fewer agents or fewer buildings than a threshold; a caller-supplied mapper
//! then picks a building among the cell's buildings for each agent in it.
use vstd::prelude::*;
use vstd::seq_lib::to_multiset_contains;

use crate::buildings::Building;
use crate::geo::{center_of, Region, UTMCoordinates};
use crate::parallel::{join, sort_by_first};
use crate::unit_fixed::fixed_of_ratio;
use crate::vehicle_sim::Agent;
use crate::z_order::morton;

verus! {

/// The southwest quadrant; quadrants are numbered in ascending Z-order.
pub const SW: u8 = 0;

/// The southeast quadrant.
pub const SE: u8 = 1;

/// The northwest quadrant.
pub const NW: u8 = 2;

/// The northeast quadrant.
pub const NE: u8 = 3;

/// The prefix bit that selects the east half of a cell at `depth`.
pub open spec fn x_bit(depth: int) -> u64 {
    0x4000_0000_0000_0000u64 >> ((2 * depth) as u64)
}

/// The prefix bit that selects the north half of a cell at `depth`.
pub open spec fn y_bit(depth: int) -> u64 {
    0x8000_0000_0000_0000u64 >> ((2 * depth) as u64)
}

/// The Z-code prefix of quadrant `q` of the cell with prefix `prefix` at `depth`.
pub open spec fn quad_prefix(prefix: u64, depth: int, q: u8) -> u64 {
    if q == SW {
        prefix
    } else if q == SE {
        prefix | x_bit(depth)
    } else if q == NW {
        prefix | y_bit(depth)
    } else {
        prefix | y_bit(depth) | x_bit(depth)
    }
}

/// Quadrant `q` of `region` around the point `c`.
pub open spec fn sub_region(region: Region, c: UTMCoordinates, q: u8) -> Region {
    if q == SW {
        Region { east: c.x, west: region.west, north: c.y, south: region.south }
    } else if q == SE {
        Region { east: region.east, west: c.x, north: c.y, south: region.south }
    } else if q == NW {
        Region { east: c.x, west: region.west, north: region.north, south: c.y }
    } else {
        Region { east: region.east, west: c.x, north: region.north, south: c.y }
    }
}

/// Whether a bounding box reaches strictly into quadrant `q` around `c`.
pub open spec fn in_quadrant(bbox: Region, c: UTMCoordinates, q: u8) -> bool {
    let north = bbox.north > c.y;
    let south = bbox.south < c.y;
    let east = bbox.east > c.x;
    let west = bbox.west < c.x;
    if q == SW {
        south && west
    } else if q == SE {
        south && east
    } else if q == NW {
        north && west
    } else {
        north && east
    }
}

/// The buildings of `bs` (indices into `blds`) whose box reaches into quadrant
/// `q` around `c`, in their order.
pub open spec fn keep(bs: Seq<usize>, blds: Seq<Building>, c: UTMCoordinates, q: u8) -> Seq<usize>
    decreases bs.len(),
{
    if bs.len() == 0 {
        Seq::empty()
    } else {
        let rest = keep(bs.drop_last(), blds, c, q);
        if in_quadrant(blds[bs.last() as int].bbox, c, q) {
            rest.push(bs.last())
        } else {
            rest
        }
    }
}

/// The first position in `[lo, hi)` whose code is at least `v`, or `hi`.
pub open spec fn lower_bound(zs: Seq<(u64, usize)>, lo: int, hi: int, v: u64) -> int
    decreases hi - lo,
{
    if lo >= hi {
        hi
    } else if zs[lo].0 >= v {
        lo
    } else {
        lower_bound(zs, lo + 1, hi, v)
    }
}

/// The codes are in ascending order.
pub open spec fn sorted_by_code(zs: Seq<(u64, usize)>) -> bool {
    forall|s: int, t: int| 0 <= s < t < zs.len() ==> zs[s].0 <= zs[t].0
}

/// The cell at `depth` with Z-prefix `prefix` covers `region`, the agents at
/// positions `[lo, hi)` of the sorted `zs`, and the buildings `bs`. This is the
/// list of buildings that the agent at position `k` is mapped among: a cell with
/// without agents or buildings, with fewer than `thr` agents or buildings, or at
/// the last level is a leaf; otherwise the agents split by Z-prefix into SW, SE, NW and NE, the
/// buildings by the quadrants their boxes reach into, and `k` goes to its part.
pub open spec fn cell_candidates(
    thr: int,
    depth: int,
    prefix: u64,
    region: Region,
    zs: Seq<(u64, usize)>,
    lo: int,
    hi: int,
    bs: Seq<usize>,
    blds: Seq<Building>,
    k: int,
) -> Seq<usize>
    decreases 32 - depth,
{
    if depth >= 32 || depth < 0 || hi <= lo || bs.len() == 0 || hi - lo < thr || bs.len() < thr {
        bs
    } else {
        let n_split = lower_bound(zs, lo, hi, prefix | y_bit(depth));
        let se_split = lower_bound(zs, lo, n_split, prefix | x_bit(depth));
        let ne_split = lower_bound(zs, n_split, hi, prefix | y_bit(depth) | x_bit(depth));
        let c = center_of(region);
        let q = if k < se_split {
            SW
        } else if k < n_split {
            SE
        } else if k < ne_split {
            NW
        } else {
            NE
        };
        let qlo = if q == SW {
            lo
        } else if q == SE {
            se_split
        } else if q == NW {
            n_split
        } else {
            ne_split
        };
        let qhi = if q == SW {
            se_split
        } else if q == SE {
            n_split
        } else if q == NW {
            ne_split
        } else {
            hi
        };
        cell_candidates(
            thr,
            depth + 1,
            quad_prefix(prefix, depth, q),
            sub_region(region, c, q),
            zs,
            qlo,
            qhi,
            keep(bs, blds, c, q),
            blds,
            k,
        )
    }
}

/// The mapper, called on agent `a` and a candidate slice holding `c`, may
/// return `b`.
pub open spec fn mapped_by<F: Fn(usize, &[usize]) -> usize>(
    mapper: F,
    a: usize,
    c: Seq<usize>,
    b: usize,
) -> bool {
    exists|cs: &[usize]| cs@ == c && #[trigger] mapper.ensures((a, cs), b)
}

/// The slot of agent `a` whose cell offers the buildings `c`: empty if there
/// are none, else a building that the mapper returned for `a` and `c`.
pub open spec fn slot_ok<F: Fn(usize, &[usize]) -> usize>(
    slot: Option<usize>,
    a: usize,
    c: Seq<usize>,
    mapper: F,
) -> bool {
    if c.len() == 0 {
        slot.is_none()
    } else {
        slot matches Some(b) && mapped_by(mapper, a, c, b)
    }
}

/// `lower_bound` is the position that splits a sorted range at `v`.
proof fn lemma_lower_bound(zs: Seq<(u64, usize)>, lo: int, hi: int, v: u64, s: int)
    requires
        lo <= s <= hi,
        forall|k: int| lo <= k < s ==> (#[trigger] zs[k]).0 < v,
        s < hi ==> zs[s].0 >= v,
    ensures
        lower_bound(zs, lo, hi, v) == s,
    decreases s - lo,
{
    if lo < s {
        lemma_lower_bound(zs, lo + 1, hi, v, s);
    }
}

/// The first position in `[lo, hi)` of the sorted `arr` whose code is at least
/// `query`: the boundary between two adjacent quadrants.
fn find_split(arr: &[(u64, usize)], lo: usize, hi: usize, query: u64) -> (r: usize)
    requires
        lo <= hi <= arr@.len(),
        sorted_by_code(arr@),
    ensures
        r == lower_bound(arr@, lo as int, hi as int, query),
        lo <= r <= hi,
{
    let mut a = lo;
    let mut b = hi;
    while a < b
        invariant
            lo <= a <= b <= hi <= arr@.len(),
            sorted_by_code(arr@),
            forall|k: int| lo <= k < a ==> (#[trigger] arr@[k]).0 < query,
            forall|k: int| b <= k < hi ==> (#[trigger] arr@[k]).0 >= query,
        decreases b - a,
    {
        let mid = a + (b - a) / 2;
        if arr[mid].0 < query {
            a = mid + 1;
        } else {
            b = mid;
        }
    }
    proof {
        lemma_lower_bound(arr@, lo as int, hi as int, query, a as int);
    }
    a
}

/// Every building index of `bs` is valid in `blds`.
pub open spec fn valid_buildings(bs: Seq<usize>, blds: Seq<Building>) -> bool {
    forall|i: int| 0 <= i < bs.len() ==> (#[trigger] bs[i]) < blds.len()
}

proof fn lemma_keep_valid(bs: Seq<usize>, blds: Seq<Building>, c: UTMCoordinates, q: u8)
    requires
        valid_buildings(bs, blds),
    ensures
        valid_buildings(keep(bs, blds, c, q), blds),
    decreases bs.len(),
{
    if bs.len() > 0 {
        lemma_keep_valid(bs.drop_last(), blds, c, q);
        let rest = keep(bs.drop_last(), blds, c, q);
        assert(bs[bs.len() - 1] < blds.len());
        if in_quadrant(blds[bs.last() as int].bbox, c, q) {
            assert forall|i: int| 0 <= i < rest.len() + 1 implies (#[trigger] rest.push(bs.last())[i])
                < blds.len() by {
                if i < rest.len() {
                    assert(rest.push(bs.last())[i] == rest[i]);
                }
            }
        }
    }
}

fn in_quadrant_exec(bbox: &Region, c: UTMCoordinates, q: u8) -> (r: bool)
    ensures
        r == in_quadrant(*bbox, c, q),
{
    let north = bbox.north > c.y;
    let south = bbox.south < c.y;
    let east = bbox.east > c.x;
    let west = bbox.west < c.x;
    if q == SW {
        south && west
    } else if q == SE {
        south && east
    } else if q == NW {
        north && west
    } else {
        north && east
    }
}

/// Sorts the buildings of a cell into the quadrants around `c` that their
/// boxes reach into; a building may land in several.
fn split_buildings(bs: &Vec<usize>, all: &[Building], c: UTMCoordinates) -> (r: (
    Vec<usize>,
    Vec<usize>,
    Vec<usize>,
    Vec<usize>,
))
    requires
        valid_buildings(bs@, all@),
    ensures
        r.0@ == keep(bs@, all@, c, SW),
        r.1@ == keep(bs@, all@, c, SE),
        r.2@ == keep(bs@, all@, c, NW),
        r.3@ == keep(bs@, all@, c, NE),
{
    let mut sw: Vec<usize> = Vec::new();
    let mut se: Vec<usize> = Vec::new();
    let mut nw: Vec<usize> = Vec::new();
    let mut ne: Vec<usize> = Vec::new();
    let mut i: usize = 0;
    while i < bs.len()
        invariant
            i <= bs.len(),
            valid_buildings(bs@, all@),
            sw@ == keep(bs@.take(i as int), all@, c, SW),
            se@ == keep(bs@.take(i as int), all@, c, SE),
            nw@ == keep(bs@.take(i as int), all@, c, NW),
            ne@ == keep(bs@.take(i as int), all@, c, NE),
        decreases bs.len() - i,
    {
        let b = bs[i];
        assert(b < all@.len());
        let bbox = all[b].bbox();
        assert(bs@.take(i + 1).drop_last() =~= bs@.take(i as int));
        assert(bs@.take(i + 1).last() == b);
        if in_quadrant_exec(bbox, c, SW) {
            sw.push(b);
        }
        if in_quadrant_exec(bbox, c, SE) {
            se.push(b);
        }
        if in_quadrant_exec(bbox, c, NW) {
            nw.push(b);
        }
        if in_quadrant_exec(bbox, c, NE) {
            ne.push(b);
        }
        i += 1;
    }
    assert(bs@.take(bs.len() as int) =~= bs@);
    (sw, se, nw, ne)
}

/// `slots` holds, for each agent at positions `[lo, hi)` of `zs`, what the
/// cell decomposition and the mapper give it.
pub open spec fn cell_slots_ok<F: Fn(usize, &[usize]) -> usize>(
    slots: Seq<Option<usize>>,
    thr: int,
    depth: int,
    prefix: u64,
    region: Region,
    zs: Seq<(u64, usize)>,
    lo: int,
    hi: int,
    bs: Seq<usize>,
    blds: Seq<Building>,
    mapper: F,
) -> bool {
    &&& slots.len() == hi - lo
    &&& (forall|k: int|
        lo <= k < hi ==> slot_ok(
            #[trigger] slots[k - lo],
            zs[k].1,
            cell_candidates(thr, depth, prefix, region, zs, lo, hi, bs, blds, k),
            mapper,
        ))
}

/// Maps the agents at positions `[lo, hi)` of the Z-sorted `agents`, which lie
/// in the cell `prefix` at `depth` covering `region`, among `buildings`.
/// Returns one slot per agent. The four quadrants are processed in parallel.
fn process_region<F>(
    split_threshold: usize,
    prefix: u64,
    depth: u64,
    region: Region,
    agents: &[(u64, usize)],
    lo: usize,
    hi: usize,
    buildings: Vec<usize>,
    all: &[Building],
    mapper: &F,
) -> (slots: Vec<Option<usize>>) where F: Fn(usize, &[usize]) -> usize + Sync
    requires
        depth <= 32,
        lo <= hi <= agents@.len(),
        sorted_by_code(agents@),
        valid_buildings(buildings@, all@),
        forall|a: usize, cs: &[usize]| cs@.len() > 0 ==> #[trigger] mapper.requires((a, cs)),
    ensures
        cell_slots_ok(
            slots@,
            split_threshold as int,
            depth as int,
            prefix,
            region,
            agents@,
            lo as int,
            hi as int,
            buildings@,
            all@,
            *mapper,
        ),
    decreases 32 - depth,
{
    if depth >= 32 || hi == lo || buildings.len() == 0 || hi - lo < split_threshold
        || buildings.len() < split_threshold {
        let mut slots: Vec<Option<usize>> = Vec::new();
        let mut k = lo;
        while k < hi
            invariant
                lo <= k <= hi,
                hi <= agents@.len(),
                slots.len() == k - lo,
                forall|a: usize, cs: &[usize]| cs@.len() > 0 ==> #[trigger] mapper.requires((a, cs)),
                forall|j: int|
                    lo <= j < k ==> slot_ok(#[trigger] slots@[j - lo], agents@[j].1, buildings@, *mapper),
            decreases hi - k,
        {
            if buildings.len() == 0 {
                slots.push(None);
            } else {
                let cands = buildings.as_slice();
                let a = agents[k].1;
                let b = mapper(a, cands);
                assert(mapped_by(*mapper, a, buildings@, b));
                slots.push(Some(b));
            }
            assert(slots@[k - lo] == slots@[slots.len() - 1]);
            k += 1;
        }
        return slots;
    }
    let xb: u64 = 0x4000_0000_0000_0000u64 >> (2 * depth);
    let yb: u64 = 0x8000_0000_0000_0000u64 >> (2 * depth);
    let nw_prefix = prefix | yb;
    let se_prefix = prefix | xb;
    let ne_prefix = prefix | yb | xb;
    let n_split = find_split(agents, lo, hi, nw_prefix);
    let se_split = find_split(agents, lo, n_split, se_prefix);
    let ne_split = find_split(agents, n_split, hi, ne_prefix);
    let c = region.center();
    let (b_sw, b_se, b_nw, b_ne) = split_buildings(&buildings, all, c);
    proof {
        lemma_keep_valid(buildings@, all@, c, SW);
        lemma_keep_valid(buildings@, all@, c, SE);
        lemma_keep_valid(buildings@, all@, c, NW);
        lemma_keep_valid(buildings@, all@, c, NE);
    }
    let r_sw = Region::new(c.x, region.west, c.y, region.south);
    let r_se = Region::new(region.east, c.x, c.y, region.south);
    let r_nw = Region::new(c.x, region.west, region.north, c.y);
    let r_ne = Region::new(region.east, c.x, region.north, c.y);
    let next = depth + 1;
    let ghost zs = agents@;
    let ghost thr = split_threshold as int;
    let ghost bsw = b_sw@;
    let ghost bse = b_se@;
    let ghost bnw = b_nw@;
    let ghost bne = b_ne@;
    let north = move || -> (r: (Vec<Option<usize>>, Vec<Option<usize>>))
        ensures
            cell_slots_ok(r.0@, thr, next as int, nw_prefix, r_nw, zs, n_split as int, ne_split as int, bnw, all@, *mapper),
            cell_slots_ok(r.1@, thr, next as int, ne_prefix, r_ne, zs, ne_split as int, hi as int, bne, all@, *mapper),
        {
            let f_nw = move || -> (r: Vec<Option<usize>>)
                ensures
                    cell_slots_ok(r@, thr, next as int, nw_prefix, r_nw, zs, n_split as int, ne_split as int, bnw, all@, *mapper),
                {
                    process_region(split_threshold, nw_prefix, next, r_nw, agents, n_split, ne_split, b_nw, all, mapper)
                };
            let f_ne = move || -> (r: Vec<Option<usize>>)
                ensures
                    cell_slots_ok(r@, thr, next as int, ne_prefix, r_ne, zs, ne_split as int, hi as int, bne, all@, *mapper),
                {
                    process_region(split_threshold, ne_prefix, next, r_ne, agents, ne_split, hi, b_ne, all, mapper)
                };
            join(f_nw, f_ne)
        };
    let south = move || -> (r: (Vec<Option<usize>>, Vec<Option<usize>>))
        ensures
            cell_slots_ok(r.0@, thr, next as int, prefix, r_sw, zs, lo as int, se_split as int, bsw, all@, *mapper),
            cell_slots_ok(r.1@, thr, next as int, se_prefix, r_se, zs, se_split as int, n_split as int, bse, all@, *mapper),
        {
            let f_sw = move || -> (r: Vec<Option<usize>>)
                ensures
                    cell_slots_ok(r@, thr, next as int, prefix, r_sw, zs, lo as int, se_split as int, bsw, all@, *mapper),
                {
                    process_region(split_threshold, prefix, next, r_sw, agents, lo, se_split, b_sw, all, mapper)
                };
            let f_se = move || -> (r: Vec<Option<usize>>)
                ensures
                    cell_slots_ok(r@, thr, next as int, se_prefix, r_se, zs, se_split as int, n_split as int, bse, all@, *mapper),
                {
                    process_region(split_threshold, se_prefix, next, r_se, agents, se_split, n_split, b_se, all, mapper)
                };
            join(f_sw, f_se)
        };
    let ((mut s_nw, mut s_ne), (mut s_sw, mut s_se)) = join(north, south);
    let ghost (v_sw, v_se, v_nw, v_ne) = (s_sw@, s_se@, s_nw@, s_ne@);
    let mut slots = s_sw;
    slots.append(&mut s_se);
    slots.append(&mut s_nw);
    slots.append(&mut s_ne);
    proof {
        assert(slots@ == v_sw + v_se + v_nw + v_ne);
        assert forall|k: int| lo <= k < hi implies slot_ok(
            #[trigger] slots@[k - lo],
            zs[k].1,
            cell_candidates(thr, depth as int, prefix, region, zs, lo as int, hi as int, buildings@, all@, k),
            *mapper,
        ) by {
            if k < se_split {
                assert(slots@[k - lo] == v_sw[k - lo]);
            } else if k < n_split {
                assert(slots@[k - lo] == v_se[k - se_split]);
            } else if k < ne_split {
                assert(slots@[k - lo] == v_nw[k - n_split]);
            } else {
                assert(slots@[k - lo] == v_ne[k - ne_split]);
            }
        }
    }
    slots
}

/// The empty region that folding starts from: west above east, south above north.
pub open spec fn empty_region() -> Region {
    Region { east: i32::MIN, west: i32::MAX, north: i32::MIN, south: i32::MAX }
}

/// The smallest region holding both `a` and `b`.
pub open spec fn grow_region(a: Region, b: Region) -> Region {
    Region {
        east: if b.east > a.east { b.east } else { a.east },
        west: if b.west < a.west { b.west } else { a.west },
        north: if b.north > a.north { b.north } else { a.north },
        south: if b.south < a.south { b.south } else { a.south },
    }
}

/// The smallest region holding `a` and the point `p`.
pub open spec fn grow_point(a: Region, p: UTMCoordinates) -> Region {
    Region {
        east: if p.x > a.east { p.x } else { a.east },
        west: if p.x < a.west { p.x } else { a.west },
        north: if p.y > a.north { p.y } else { a.north },
        south: if p.y < a.south { p.y } else { a.south },
    }
}

/// The region spanned by the bounding boxes of `blds`.
pub open spec fn buildings_region(blds: Seq<Building>) -> Region
    decreases blds.len(),
{
    if blds.len() == 0 {
        empty_region()
    } else {
        grow_region(buildings_region(blds.drop_last()), blds.last().bbox)
    }
}

/// `r` grown by the positions of `agents`.
pub open spec fn agents_region(r: Region, agents: Seq<Agent>) -> Region
    decreases agents.len(),
{
    if agents.len() == 0 {
        r
    } else {
        grow_point(agents_region(r, agents.drop_last()), agents.last().position)
    }
}

/// The region spanned by all building boxes and all agent positions.
pub open spec fn enclosing_region(agents: Seq<Agent>, blds: Seq<Building>) -> Region {
    agents_region(buildings_region(blds), agents)
}

/// A region without area on some axis.
pub open spec fn degenerate(r: Region) -> bool {
    !(r.west < r.east && r.south < r.north)
}

/// The Z-code of `p` normalised into `region`.
pub open spec fn code_in(p: UTMCoordinates, region: Region) -> u64 {
    morton(
        fixed_of_ratio(p.x - region.west, region.east - region.west) as u32,
        fixed_of_ratio(p.y - region.south, region.north - region.south) as u32,
    )
}

/// Each agent's Z-code in `region`, paired with its index.
pub open spec fn agent_codes(agents: Seq<Agent>, region: Region) -> Seq<(u64, usize)> {
    Seq::new(agents.len(), |k: int| (code_in(agents[k].position, region), k as usize))
}

/// The indices of `n` buildings.
pub open spec fn all_buildings(n: nat) -> Seq<usize> {
    Seq::new(n, |i: int| i as usize)
}

/// The pairs (agent, building) of the filled slots, in the order of `order`.
pub open spec fn harvest(order: Seq<(u64, usize)>, slots: Seq<Option<usize>>) -> Seq<(usize, usize)>
    decreases order.len(),
{
    if order.len() == 0 || slots.len() == 0 {
        Seq::empty()
    } else {
        let rest = harvest(order.drop_last(), slots.drop_last());
        match slots.last() {
            Some(b) => rest.push((order.last().1, b)),
            None => rest,
        }
    }
}

/// A run of the mapping over the enclosing region: `order` holds every agent's
/// code and index, sorted by code; `slots` holds, at each position of `order`,
/// what the cell decomposition of all buildings and the mapper give that agent.
pub open spec fn mapping_outcome<F: Fn(usize, &[usize]) -> usize>(
    thr: int,
    agents: Seq<Agent>,
    blds: Seq<Building>,
    mapper: F,
    order: Seq<(u64, usize)>,
    slots: Seq<Option<usize>>,
) -> bool {
    let region = enclosing_region(agents, blds);
    &&& agents.len() <= usize::MAX
    &&& order.len() == agents.len()
    &&& order.to_multiset() == agent_codes(agents, region).to_multiset()
    &&& sorted_by_code(order)
    &&& cell_slots_ok(
        slots,
        thr,
        0,
        0,
        region,
        order,
        0,
        agents.len() as int,
        all_buildings(blds.len()),
        blds,
        mapper,
    )
}

/// The region that folding starts from.
pub fn min_region() -> (r: Region)
    ensures
        r == empty_region(),
{
    Region::new(i32::MIN, i32::MAX, i32::MIN, i32::MAX)
}

/// Grows `a` to hold `b`.
pub fn reduce_regions(a: Region, b: &Region) -> (r: Region)
    ensures
        r == grow_region(a, *b),
{
    let mut a = a;
    if b.west < a.west {
        a.west = b.west;
    }
    if b.east > a.east {
        a.east = b.east;
    }
    if b.south < a.south {
        a.south = b.south;
    }
    if b.north > a.north {
        a.north = b.north;
    }
    a
}

/// Grows `a` to hold the point `b`.
pub fn reduce_region_point(a: Region, b: UTMCoordinates) -> (r: Region)
    ensures
        r == grow_point(a, b),
{
    let mut a = a;
    if b.x < a.west {
        a.west = b.x;
    }
    if b.x > a.east {
        a.east = b.x;
    }
    if b.y > a.north {
        a.north = b.y;
    }
    if b.y < a.south {
        a.south = b.y;
    }
    a
}

/// Maps each agent to one of the buildings near it, with `mapper`.
///
/// The region spanned by all buildings and agents is cut into a Morton-order
/// quadtree; a cell is split while it holds at least `split_threshold` agents
/// and at least `split_threshold` buildings, down to cells of a single code
/// (32 levels). In each leaf, `mapper` is called
/// once per agent with the indices of the leaf's buildings and returns the
/// chosen building index. The result lists `(agent index, building index)` in
/// ascending Z-order of the agents; agents whose leaf holds no building are
/// left out. `None` if the spanned region has no area.
pub fn map_vehicles<F>(split_threshold: usize, agents: &[Agent], buildings: &[Building], mapper: F) -> (r:
    Option<Vec<(usize, usize)>>) where F: Fn(usize, &[usize]) -> usize + Sync
    requires
        forall|a: usize, cs: &[usize]| cs@.len() > 0 ==> #[trigger] mapper.requires((a, cs)),
    ensures
        r.is_none() <==> degenerate(enclosing_region(agents@, buildings@)),
        r matches Some(out) ==> exists|order: Seq<(u64, usize)>, slots: Seq<Option<usize>>|
            mapping_outcome(split_threshold as int, agents@, buildings@, mapper, order, slots)
                && out@ == harvest(order, slots),
{
    let nb = buildings.len();
    let na = agents.len();
    let mut region = min_region();
    let mut i: usize = 0;
    while i < nb
        invariant
            i <= nb == buildings@.len(),
            region == buildings_region(buildings@.take(i as int)),
        decreases nb - i,
    {
        assert(buildings@.take(i + 1).drop_last() =~= buildings@.take(i as int));
        region = reduce_regions(region, buildings[i].bbox());
        i += 1;
    }
    assert(buildings@.take(nb as int) =~= buildings@);
    let ghost start = region;
    i = 0;
    while i < na
        invariant
            i <= na == agents@.len(),
            region == agents_region(start, agents@.take(i as int)),
            forall|k: int| 0 <= k < i ==> region.spec_contains(#[trigger] agents@[k].position),
        decreases na - i,
    {
        assert(agents@.take(i + 1).drop_last() =~= agents@.take(i as int));
        region = reduce_region_point(region, agents[i].position);
        i += 1;
    }
    assert(agents@.take(na as int) =~= agents@);
    if !(region.west < region.east) || !(region.south < region.north) {
        return None;
    }
    let mut order: Vec<(u64, usize)> = Vec::new();
    i = 0;
    while i < na
        invariant
            i <= na == agents@.len(),
            region == enclosing_region(agents@, buildings@),
            region.west < region.east,
            region.south < region.north,
            forall|k: int| 0 <= k < na ==> region.spec_contains(#[trigger] agents@[k].position),
            order@ == agent_codes(agents@.take(i as int), region),
        decreases na - i,
    {
        let z = agents[i].position.z_value(&region).unwrap();
        order.push((z.0, i));
        assert(order@ =~= agent_codes(agents@.take(i + 1), region));
        i += 1;
    }
    assert(agents@.take(na as int) =~= agents@);
    let ghost codes = order@;
    sort_by_first(&mut order);
    let mut all: Vec<usize> = Vec::new();
    i = 0;
    while i < nb
        invariant
            i <= nb,
            all@ == all_buildings(i as nat),
        decreases nb - i,
    {
        all.push(i);
        assert(all@ =~= all_buildings((i + 1) as nat));
        i += 1;
    }
    let slots = process_region(split_threshold, 0, 0, region, order.as_slice(), 0, na, all, buildings, &mapper);
    let mut out: Vec<(usize, usize)> = Vec::new();
    i = 0;
    while i < na
        invariant
            i <= na == order@.len() == slots@.len(),
            out@ == harvest(order@.take(i as int), slots@.take(i as int)),
        decreases na - i,
    {
        assert(order@.take(i + 1).drop_last() =~= order@.take(i as int));
        assert(slots@.take(i + 1).drop_last() =~= slots@.take(i as int));
        match slots[i] {
            Some(b) => {
                out.push((order[i].1, b));
            },
            None => {},
        }
        i += 1;
    }
    assert(order@.take(na as int) =~= order@);
    assert(slots@.take(na as int) =~= slots@);
    assert(mapping_outcome(split_threshold as int, agents@, buildings@, mapper, order@, slots@));
    Some(out)
}

/// What the harvest of filled slots holds: each pair comes from a filled slot,
/// each filled slot gives a pair, and distinct agents in `order` give distinct
/// agents in the pairs.
proof fn lemma_harvest(order: Seq<(u64, usize)>, slots: Seq<Option<usize>>)
    requires
        order.len() == slots.len(),
    ensures
        forall|t: int|
            0 <= t < harvest(order, slots).len() ==> exists|k: int|
                0 <= k < order.len() && slots[k] == Some(#[trigger] harvest(order, slots)[t].1)
                    && order[k].1 == harvest(order, slots)[t].0,
        forall|k: int|
            0 <= k < order.len() && (#[trigger] slots[k]).is_some() ==> exists|t: int|
                0 <= t < harvest(order, slots).len() && harvest(order, slots)[t] == (
                    order[k].1,
                    slots[k]->Some_0,
                ),
        (forall|s: int, t: int| 0 <= s < t < order.len() ==> order[s].1 != order[t].1) ==> (forall|
            s: int,
            t: int,
        | 0 <= s < t < harvest(order, slots).len() ==> harvest(order, slots)[s].0 != harvest(
            order,
            slots,
        )[t].0),
    decreases order.len(),
{
    if order.len() > 0 {
        let n = order.len();
        let p = order.drop_last();
        let ps = slots.drop_last();
        lemma_harvest(p, ps);
        let hp = harvest(p, ps);
        let h = harvest(order, slots);
        assert forall|t: int| 0 <= t < h.len() implies exists|k: int|
            0 <= k < order.len() && slots[k] == Some(#[trigger] h[t].1) && order[k].1 == h[t].0 by {
            if t < hp.len() {
                assert(h[t] == hp[t]);
                let k = choose|k: int| 0 <= k < p.len() && ps[k] == Some(hp[t].1) && p[k].1 == hp[t].0;
                assert(slots[k] == ps[k] && order[k] == p[k]);
            } else {
                assert(slots[n - 1] == Some(h[t].1));
            }
        }
        assert forall|k: int| 0 <= k < order.len() && (#[trigger] slots[k]).is_some() implies exists|
            t: int,
        | 0 <= t < h.len() && h[t] == (order[k].1, slots[k]->Some_0) by {
            if k < n - 1 {
                assert(slots[k] == ps[k] && order[k] == p[k]);
                let t = choose|t: int| 0 <= t < hp.len() && hp[t] == (p[k].1, ps[k]->Some_0);
                assert(h[t] == hp[t]);
            } else {
                assert(h[hp.len() as int] == (order[k].1, slots[k]->Some_0));
            }
        }
        if forall|s: int, t: int| 0 <= s < t < order.len() ==> order[s].1 != order[t].1 {
            assert forall|s: int, t: int| 0 <= s < t < h.len() implies h[s].0 != h[t].0 by {
                assert(forall|s: int, t: int| 0 <= s < t < p.len() ==> p[s].1 != p[t].1);
                if t < hp.len() {
                    assert(h[s] == hp[s] && h[t] == hp[t]);
                } else {
                    assert(h[s] == hp[s]);
                    let k = choose|k: int| 0 <= k < p.len() && ps[k] == Some(hp[s].1) && p[k].1 == hp[s].0;
                    assert(order[k] == p[k]);
                }
            }
        }
    }
}

/// Agent `a` has a position in `order`.
pub open spec fn occurs(order: Seq<(u64, usize)>, a: usize) -> bool {
    exists|k: int| 0 <= k < order.len() && order[k].1 == a
}

/// Every agent index occurs exactly once in `order`.
proof fn lemma_order_covers_agents(agents: Seq<Agent>, region: Region, order: Seq<(u64, usize)>)
    requires
        agents.len() <= usize::MAX,
        order.to_multiset() == agent_codes(agents, region).to_multiset(),
    ensures
        forall|a: usize| a < agents.len() ==> #[trigger] occurs(order, a),
        forall|s: int, t: int| 0 <= s < t < order.len() ==> order[s].1 != order[t].1,
{
    let codes = agent_codes(agents, region);
    assert forall|a: usize| a < agents.len() implies #[trigger] occurs(order, a) by {
        let e = codes[a as int];
        assert(codes.contains(e));
        to_multiset_contains(codes, e);
        to_multiset_contains(order, e);
        let k = choose|k: int| 0 <= k < order.len() && order[k] == e;
        assert(order[k].1 == a);
    }
    assert(codes.no_duplicates()) by {
        assert forall|i: int, j: int| 0 <= i < codes.len() && 0 <= j < codes.len() && i != j implies codes[i]
            != codes[j] by {
            assert(codes[i].1 == i && codes[j].1 == j);
        }
    }
    codes.lemma_multiset_has_no_duplicates();
    assert forall|x: (u64, usize)| order.to_multiset().contains(x) implies order.to_multiset().count(x) == 1 by {
    }
    order.lemma_multiset_has_no_duplicates_conv();
    assert forall|s: int, t: int| 0 <= s < t < order.len() implies order[s].1 != order[t].1 by {
        if order[s].1 == order[t].1 {
            assert(order.contains(order[s]));
            assert(order.contains(order[t]));
            to_multiset_contains(order, order[s]);
            to_multiset_contains(codes, order[s]);
            to_multiset_contains(order, order[t]);
            to_multiset_contains(codes, order[t]);
            let i = choose|i: int| 0 <= i < codes.len() && codes[i] == order[s];
            let j = choose|j: int| 0 <= j < codes.len() && codes[j] == order[t];
            assert(codes[i].1 == i && codes[j].1 == j);
            assert(order[s] == order[t]);
        }
    }
}

/// The cell candidates of the agent at position `k` of a run.
pub open spec fn run_candidates(
    thr: int,
    agents: Seq<Agent>,
    blds: Seq<Building>,
    order: Seq<(u64, usize)>,
    k: int,
) -> Seq<usize> {
    cell_candidates(
        thr,
        0,
        0,
        enclosing_region(agents, blds),
        order,
        0,
        agents.len() as int,
        all_buildings(blds.len()),
        blds,
        k,
    )
}

/// Single assignment: in the result of a mapping run no agent occurs twice,
/// every agent has its place in the Z-order, and every agent whose cell holds a
/// building is in the result.
pub proof fn lemma_single_assignment<F: Fn(usize, &[usize]) -> usize>(
    thr: int,
    agents: Seq<Agent>,
    blds: Seq<Building>,
    mapper: F,
    order: Seq<(u64, usize)>,
    slots: Seq<Option<usize>>,
)
    requires
        mapping_outcome(thr, agents, blds, mapper, order, slots),
    ensures
        forall|s: int, t: int|
            0 <= s < t < harvest(order, slots).len() ==> harvest(order, slots)[s].0 != harvest(
                order,
                slots,
            )[t].0,
        forall|a: usize| a < agents.len() ==> #[trigger] occurs(order, a),
        forall|k: int|
            0 <= k < order.len() && (#[trigger] run_candidates(thr, agents, blds, order, k)).len() > 0
                ==> exists|t: int|
                0 <= t < harvest(order, slots).len() && harvest(order, slots)[t].0 == order[k].1,
{
    lemma_order_covers_agents(agents, enclosing_region(agents, blds), order);
    lemma_harvest(order, slots);
    assert forall|k: int|
        0 <= k < order.len() && (#[trigger] run_candidates(thr, agents, blds, order, k)).len() > 0 implies exists|
        t: int,
    | 0 <= t < harvest(order, slots).len() && harvest(order, slots)[t].0 == order[k].1 by {
        assert(slot_ok(slots[k - 0], order[k].1, run_candidates(thr, agents, blds, order, k), mapper));
        assert(slots[k].is_some());
        let t = choose|t: int|
            0 <= t < harvest(order, slots).len() && harvest(order, slots)[t] == (
                order[k].1,
                slots[k]->Some_0,
            );
    }
}

/// Mapper conformance: each pair (agent, building) of a run's result holds a
/// building that the mapper returned for that agent and the buildings of its
/// cell.
pub proof fn lemma_mapper_conformance<F: Fn(usize, &[usize]) -> usize>(
    thr: int,
    agents: Seq<Agent>,
    blds: Seq<Building>,
    mapper: F,
    order: Seq<(u64, usize)>,
    slots: Seq<Option<usize>>,
)
    requires
        mapping_outcome(thr, agents, blds, mapper, order, slots),
    ensures
        forall|t: int|
            0 <= t < harvest(order, slots).len() ==> exists|k: int|
                0 <= k < order.len() && order[k].1 == (#[trigger] harvest(order, slots)[t]).0
                    && mapped_by(
                    mapper,
                    harvest(order, slots)[t].0,
                    run_candidates(thr, agents, blds, order, k),
                    harvest(order, slots)[t].1,
                ),
{
    lemma_harvest(order, slots);
    let h = harvest(order, slots);
    assert forall|t: int| 0 <= t < h.len() implies exists|k: int|
        0 <= k < order.len() && order[k].1 == (#[trigger] h[t]).0 && mapped_by(
            mapper,
            h[t].0,
            run_candidates(thr, agents, blds, order, k),
            h[t].1,
        ) by {
        let k = choose|k: int| 0 <= k < order.len() && slots[k] == Some(h[t].1) && order[k].1 == h[t].0;
        assert(slot_ok(slots[k - 0], order[k].1, run_candidates(thr, agents, blds, order, k), mapper));
    }
}

} // verus!
