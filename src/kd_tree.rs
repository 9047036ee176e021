//! A static 2-d k-d tree over grid points, with bounded k-nearest-neighbour
//! queries. The tree keeps, for each point, its index in the caller's array.
use vstd::prelude::*;
use vstd::seq_lib::{to_multiset_contains, to_multiset_update};

use crate::geo::{lemma_sq_dist_bounds, sq_dist, UTMCoordinates};
use crate::parallel::join;

verus! {

/// A point together with its index in the caller's array.
pub type Entry = (usize, UTMCoordinates);

/// The coordinate of `p` along the X axis, or the Y axis if `y_axis`.
pub open spec fn coord(p: UTMCoordinates, y_axis: bool) -> int {
    if y_axis {
        p.y as int
    } else {
        p.x as int
    }
}

/// Exchanges two elements of `v`.
fn swap_entries(v: &mut Vec<Entry>, i: usize, j: usize)
    requires
        i < old(v).len(),
        j < old(v).len(),
    ensures
        final(v)@ == old(v)@.update(i as int, old(v)@[j as int]).update(j as int, old(v)@[i as int]),
        final(v)@.to_multiset() == old(v)@.to_multiset(),
{
    let a = v[i];
    let b = v[j];
    v[i] = b;
    v[j] = a;
    proof {
        broadcast use vstd::multiset::group_multiset_axioms;

        let s0 = old(v)@;
        let s1 = s0.update(i as int, s0[j as int]);
        to_multiset_update(s0, i as int, s0[j as int]);
        assert(s1[j as int] == s0[j as int]);
        to_multiset_update(s1, j as int, s0[i as int]);
        assert(s0.contains(s0[i as int]));
        to_multiset_contains(s0, s0[i as int]);
        assert(s1.update(j as int, s0[i as int]).to_multiset() =~= s0.to_multiset());
    }
}

fn coord_of(p: UTMCoordinates, y_axis: bool) -> (r: i32)
    ensures
        r == coord(p, y_axis),
{
    if y_axis {
        p.y
    } else {
        p.x
    }
}

/// Reorders `array` around a median-of-three pivot, which ends up at the last
/// position. Returns the split `i`: the elements before `i` lie strictly below
/// the pivot along the axis, those from `i` up to the pivot at or above it.
pub fn partition(array: &mut Vec<Entry>, y_axis: bool) -> (i: usize)
    requires
        old(array).len() > 0,
    ensures
        final(array).len() == old(array).len(),
        final(array)@.to_multiset() == old(array)@.to_multiset(),
        i < final(array).len(),
        forall|k: int|
            0 <= k < i ==> coord(#[trigger] final(array)@[k].1, y_axis) < coord(
                final(array)@[final(array).len() - 1].1,
                y_axis,
            ),
        forall|k: int|
            i <= k < final(array).len() - 1 ==> coord(#[trigger] final(array)@[k].1, y_axis)
                >= coord(final(array)@[final(array).len() - 1].1, y_axis),
{
    let n = array.len();
    if n == 1 {
        return 0;
    } else if n == 2 {
        if coord_of(array[0].1, y_axis) > coord_of(array[1].1, y_axis) {
            swap_entries(array, 0, 1);
        }
        if coord_of(array[0].1, y_axis) < coord_of(array[1].1, y_axis) {
            return 1;
        } else {
            return 0;
        }
    }
    // Move the median of three to the last position.

    let hi = n - 1;
    let mid = n / 2;
    if coord_of(array[mid].1, y_axis) < coord_of(array[0].1, y_axis) {
        swap_entries(array, mid, 0);
    }
    if coord_of(array[hi].1, y_axis) < coord_of(array[0].1, y_axis) {
        swap_entries(array, hi, 0);
    }
    if coord_of(array[mid].1, y_axis) < coord_of(array[hi].1, y_axis) {
        swap_entries(array, hi, mid);
    }
    let pivot = coord_of(array[hi].1, y_axis);
    let ghost pv = array@[hi as int];
    let mut i: usize = 0;
    let mut j: usize = hi;
    // positions that stop the two scans
    let ghost mut stop_i: int = mid as int;
    let ghost mut stop_j: int = 0;
    loop
        invariant
            array.len() == n,
            n == old(array).len(),
            n >= 3,
            hi == n - 1,
            array@.to_multiset() == old(array)@.to_multiset(),
            array@[hi as int] == pv,
            pivot == coord(pv.1, y_axis),
            0 <= i <= stop_i < hi,
            coord(array@[stop_i].1, y_axis) >= pivot,
            0 <= stop_j < j <= hi,
            coord(array@[stop_j].1, y_axis) <= pivot,
            forall|k: int| 0 <= k < i ==> coord(#[trigger] array@[k].1, y_axis) < pivot,
            forall|k: int| j <= k < hi ==> coord(#[trigger] array@[k].1, y_axis) >= pivot,
        decreases j,
    {
        while coord_of(array[i].1, y_axis) < pivot
            invariant
                array.len() == n,
                hi == n - 1,
                0 <= i <= stop_i < hi,
                coord(array@[stop_i].1, y_axis) >= pivot,
                forall|k: int| 0 <= k < i ==> coord(#[trigger] array@[k].1, y_axis) < pivot,
            decreases stop_i - i,
        {
            i += 1;
        }
        let ghost j0 = j;
        loop
            invariant_except_break
                0 <= stop_j < j <= hi,
                j <= j0,
                forall|k: int| j <= k < hi ==> coord(#[trigger] array@[k].1, y_axis) >= pivot,
            invariant
                array.len() == n,
                hi == n - 1,
                0 <= stop_j,
                coord(array@[stop_j].1, y_axis) <= pivot,
            ensures
                0 <= stop_j <= j < hi,
                j < j0,
                coord(array@[j as int].1, y_axis) <= pivot,
                forall|k: int| j < k < hi ==> coord(#[trigger] array@[k].1, y_axis) >= pivot,
            decreases j,
        {
            j -= 1;
            if coord_of(array[j].1, y_axis) <= pivot {
                break ;
            }
        }
        if i >= j {
            return i;
        }
        swap_entries(array, i, j);
        proof {
            stop_i = j as int;
            stop_j = i as int;
        }
    }
}


/// Every entry carries a valid index and the point stored at that index.
pub open spec fn entries_ok(s: Seq<Entry>, pts: Seq<UTMCoordinates>) -> bool {
    forall|k: int|
        0 <= k < s.len() ==> (#[trigger] s[k]).0 < pts.len() && pts[s[k].0 as int] == s[k].1
}

/// The indices that the entries carry.
pub open spec fn index_set(s: Seq<Entry>) -> Set<usize> {
    Set::new(|i: usize| exists|k: int| 0 <= k < s.len() && (#[trigger] s[k]).0 == i)
}

/// A node of a k-d tree: the pivot point with its index, and the subtrees of
/// the points below it (left) and at or above it (right) on the node's axis.
pub struct TreeNode {
    pub index: usize,
    pub point: UTMCoordinates,
    pub left: Option<Box<TreeNode>>,
    pub right: Option<Box<TreeNode>>,
}

impl TreeNode {
    /// The indices held by an optional subtree.
    pub open spec fn indices_of(t: Option<Box<TreeNode>>) -> Set<usize>
        decreases t,
    {
        match t {
            None => Set::empty(),
            Some(n) => n.indices(),
        }
    }

    /// The indices held by this subtree.
    pub open spec fn indices(self) -> Set<usize>
        decreases self,
    {
        TreeNode::indices_of(self.left).union(TreeNode::indices_of(self.right)).insert(self.index)
    }

    pub open spec fn wf_opt(t: Option<Box<TreeNode>>, y_axis: bool, pts: Seq<UTMCoordinates>) -> bool
        decreases t,
    {
        match t {
            None => true,
            Some(n) => n.wf(y_axis, pts),
        }
    }

    /// Each index is held once, with its point from `pts`; the subtrees of a
    /// node splitting on `y_axis` lie below it (left) and at or above it
    /// (right) on that axis, and split on the other axis.
    pub open spec fn wf(self, y_axis: bool, pts: Seq<UTMCoordinates>) -> bool
        decreases self,
    {
        let l = TreeNode::indices_of(self.left);
        let r = TreeNode::indices_of(self.right);
        &&& self.index < pts.len()
        &&& pts[self.index as int] == self.point
        &&& !l.contains(self.index)
        &&& !r.contains(self.index)
        &&& l.disjoint(r)
        &&& (forall|i: usize|
            #[trigger] l.contains(i) ==> i < pts.len() && coord(pts[i as int], y_axis) < coord(
                self.point,
                y_axis,
            ))
        &&& (forall|i: usize|
            #[trigger] r.contains(i) ==> i < pts.len() && coord(pts[i as int], y_axis) >= coord(
                self.point,
                y_axis,
            ))
        &&& TreeNode::wf_opt(self.left, !y_axis, pts)
        &&& TreeNode::wf_opt(self.right, !y_axis, pts)
    }

    fn leaf(e: Entry) -> (r: Box<TreeNode>)
        ensures
            r.index == e.0,
            r.point == e.1,
            r.left.is_none(),
            r.right.is_none(),
    {
        Box::new(TreeNode { index: e.0, point: e.1, left: None, right: None })
    }

    /// Builds a subtree over `refs`, whose root splits on the Y axis if
    /// `y_axis`, else on X. The two halves are built in parallel.
    fn new(refs: Vec<Entry>, y_axis: bool, pts: Ghost<Seq<UTMCoordinates>>) -> (r: Option<
        Box<TreeNode>,
    >)
        requires
            entries_ok(refs@, pts@),
            refs@.no_duplicates(),
        ensures
            TreeNode::wf_opt(r, y_axis, pts@),
            TreeNode::indices_of(r) == index_set(refs@),
        decreases refs.len(),
    {
        let mut refs = refs;
        let n = refs.len();
        if n == 0 {
            assert(index_set(refs@) =~= Set::empty());
            return None;
        }
        if n == 1 {
            let node = TreeNode::leaf(refs[0]);
            assert(refs@[0].0 < pts@.len());
            assert(index_set(refs@) =~= Set::empty().insert(refs@[0].0));
            assert(TreeNode::indices_of(node.left) =~= Set::empty());
            assert(TreeNode::indices_of(node.right) =~= Set::empty());
            assert(node.indices() =~= Set::empty().insert(refs@[0].0));
            assert(TreeNode::wf_opt(node.left, !y_axis, pts@));
            assert(TreeNode::wf_opt(node.right, !y_axis, pts@));
            assert(node.wf(y_axis, pts@));
            return Some(node);
        }
        if n == 2 {
            let mut parent = TreeNode::leaf(refs[0]);
            let child = TreeNode::leaf(refs[1]);
            let ghost e0 = refs@[0];
            let ghost e1 = refs@[1];
            assert(refs@[0] == e0 && refs@[1] == e1);
            assert(e0.0 != e1.0);
            assert(TreeNode::indices_of(child.left) =~= Set::empty());
            assert(TreeNode::indices_of(child.right) =~= Set::empty());
            assert(child.indices() =~= Set::empty().insert(e1.0));
            assert(TreeNode::wf_opt(child.left, y_axis, pts@));
            assert(TreeNode::wf_opt(child.right, y_axis, pts@));
            assert(child.wf(!y_axis, pts@));
            if coord_of(child.point, y_axis) < coord_of(parent.point, y_axis) {
                parent.left = Some(child);
            } else {
                parent.right = Some(child);
            }
            assert(index_set(refs@) =~= Set::empty().insert(e0.0).insert(e1.0));
            assert(parent.indices() =~= Set::empty().insert(e0.0).insert(e1.0));
            assert(TreeNode::wf_opt(parent.left, !y_axis, pts@));
            assert(TreeNode::wf_opt(parent.right, !y_axis, pts@));
            assert(parent.wf(y_axis, pts@));
            return Some(parent);
        }
        let ghost before = refs@;
        let split = partition(&mut refs, y_axis);
        proof {
            lemma_permuted_entries(before, refs@, pts@);
        }
        let ghost whole = refs@;
        let mut upper = refs.split_off(split);
        let pivot = upper.pop().unwrap();
        let lower = refs;
        proof {
            lemma_split_entries(whole, split as int, pts@, y_axis);
            assert(lower@ =~= whole.subrange(0, split as int));
            assert(upper@ =~= whole.subrange(split as int, n - 1));
            assert(pivot == whole[n - 1]);
        }
        let ghost lower_view = lower@;
        let ghost upper_view = upper@;
        let next = !y_axis;
        let build_lower = move || -> (r: Option<Box<TreeNode>>)
            ensures
                TreeNode::wf_opt(r, next, pts@),
                TreeNode::indices_of(r) == index_set(lower_view),
            {
                TreeNode::new(lower, next, pts)
            };
        let build_upper = move || -> (r: Option<Box<TreeNode>>)
            ensures
                TreeNode::wf_opt(r, next, pts@),
                TreeNode::indices_of(r) == index_set(upper_view),
            {
                TreeNode::new(upper, next, pts)
            };
        let (left, right) = join(build_lower, build_upper);
        let node = Box::new(TreeNode { index: pivot.0, point: pivot.1, left, right });
        assert(node.indices() =~= index_set(whole));
        Some(node)
    }
}

/// Reordering keeps the entries valid, free of duplicates, and their indices.
proof fn lemma_permuted_entries(a: Seq<Entry>, b: Seq<Entry>, pts: Seq<UTMCoordinates>)
    requires
        a.to_multiset() == b.to_multiset(),
        entries_ok(a, pts),
        a.no_duplicates(),
    ensures
        entries_ok(b, pts),
        b.no_duplicates(),
        index_set(a) == index_set(b),
{
    broadcast use to_multiset_contains;

    assert forall|k: int| 0 <= k < b.len() implies (#[trigger] b[k]).0 < pts.len() && pts[b[k].0 as int]
        == b[k].1 by {
        to_multiset_contains(b, b[k]);
        to_multiset_contains(a, b[k]);
        assert(b.contains(b[k]));
        assert(a.contains(b[k]));
    }
    a.lemma_multiset_has_no_duplicates();
    b.lemma_multiset_has_no_duplicates_conv();
    assert forall|i: usize| index_set(a).contains(i) implies index_set(b).contains(i) by {
        let k = choose|k: int| 0 <= k < a.len() && (#[trigger] a[k]).0 == i;
        to_multiset_contains(b, a[k]);
        to_multiset_contains(a, a[k]);
        assert(a.contains(a[k]));
        assert(b.contains(a[k]));
        let k2 = choose|k2: int| 0 <= k2 < b.len() && b[k2] == a[k];
        assert(b[k2].0 == i);
    }
    assert forall|i: usize| index_set(b).contains(i) implies index_set(a).contains(i) by {
        let k = choose|k: int| 0 <= k < b.len() && (#[trigger] b[k]).0 == i;
        to_multiset_contains(b, b[k]);
        to_multiset_contains(a, b[k]);
        assert(b.contains(b[k]));
        assert(a.contains(b[k]));
        let k2 = choose|k2: int| 0 <= k2 < a.len() && a[k2] == b[k];
        assert(a[k2].0 == i);
    }
    assert(index_set(a) =~= index_set(b));
}

/// The pieces around a partition split: valid entries without duplicates,
/// disjoint index sets, and the pivot's index in neither.
proof fn lemma_split_entries(s: Seq<Entry>, m: int, pts: Seq<UTMCoordinates>, y_axis: bool)
    requires
        0 <= m < s.len(),
        entries_ok(s, pts),
        s.no_duplicates(),
    ensures
        entries_ok(s.subrange(0, m), pts),
        entries_ok(s.subrange(m, s.len() - 1), pts),
        s.subrange(0, m).no_duplicates(),
        s.subrange(m, s.len() - 1).no_duplicates(),
        index_set(s.subrange(0, m)).disjoint(index_set(s.subrange(m, s.len() - 1))),
        !index_set(s.subrange(0, m)).contains(s[s.len() - 1].0),
        !index_set(s.subrange(m, s.len() - 1)).contains(s[s.len() - 1].0),
        index_set(s) == index_set(s.subrange(0, m)).union(
            index_set(s.subrange(m, s.len() - 1)),
        ).insert(s[s.len() - 1].0),
        forall|i: usize|
            index_set(s.subrange(0, m)).contains(i) ==> i < pts.len() && pts[i as int]
                == s[index_pos(s, i)].1 && 0 <= index_pos(s, i) < m,
        forall|i: usize|
            index_set(s.subrange(m, s.len() - 1)).contains(i) ==> i < pts.len() && pts[i as int]
                == s[index_pos(s, i)].1 && m <= index_pos(s, i) < s.len() - 1,
{
    let n = s.len();
    let lo = s.subrange(0, m);
    let hi = s.subrange(m, n - 1);
    // equal indices mean equal entries, hence equal positions
    assert forall|a: int, b: int| 0 <= a < n && 0 <= b < n && s[a].0 == s[b].0 implies a == b by {
        assert(s[a] == s[b]);
    }
    assert forall|i: usize| index_set(lo).contains(i) implies i < pts.len() && pts[i as int]
        == s[index_pos(s, i)].1 && 0 <= index_pos(s, i) < m by {
        let k = choose|k: int| 0 <= k < lo.len() && (#[trigger] lo[k]).0 == i;
        assert(s[k].0 == i);
        assert(exists|p: int| 0 <= p < s.len() && s[p].0 == i);
        let p = index_pos(s, i);
        assert(p == k);
    }
    assert forall|i: usize| index_set(hi).contains(i) implies i < pts.len() && pts[i as int]
        == s[index_pos(s, i)].1 && m <= index_pos(s, i) < s.len() - 1 by {
        let k = choose|k: int| 0 <= k < hi.len() && (#[trigger] hi[k]).0 == i;
        assert(s[k + m].0 == i);
        assert(exists|p: int| 0 <= p < s.len() && s[p].0 == i);
        let p = index_pos(s, i);
        assert(p == k + m);
    }
    assert forall|i: usize| index_set(s).contains(i) implies index_set(lo).union(
        index_set(hi),
    ).insert(s[n - 1].0).contains(i) by {
        let k = choose|k: int| 0 <= k < s.len() && (#[trigger] s[k]).0 == i;
        if k < m {
            assert(lo[k].0 == i);
        } else if k < n - 1 {
            assert(hi[k - m].0 == i);
        }
    }
    assert forall|i: usize| index_set(lo).union(index_set(hi)).insert(s[n - 1].0).contains(i)
        implies index_set(s).contains(i) by {
        if i == s[n - 1].0 {
            assert(s[n - 1].0 == i);
        } else if index_set(lo).contains(i) {
            let k = choose|k: int| 0 <= k < lo.len() && (#[trigger] lo[k]).0 == i;
            assert(s[k].0 == i);
        } else {
            let k = choose|k: int| 0 <= k < hi.len() && (#[trigger] hi[k]).0 == i;
            assert(s[k + m].0 == i);
        }
    }
    assert(index_set(s) =~= index_set(lo).union(index_set(hi)).insert(s[n - 1].0));
    assert(entries_ok(s, pts));
    assert forall|k: int| 0 <= k < lo.len() implies (#[trigger] lo[k]).0 < pts.len() && pts[lo[k].0 as int]
        == lo[k].1 by {
        assert(lo[k] == s[k]);
    }
    assert forall|k: int| 0 <= k < hi.len() implies (#[trigger] hi[k]).0 < pts.len() && pts[hi[k].0 as int]
        == hi[k].1 by {
        assert(hi[k] == s[k + m]);
    }
}

/// The position of the entry that carries index `i`.
pub open spec fn index_pos(s: Seq<Entry>, i: usize) -> int {
    choose|p: int| 0 <= p < s.len() && s[p].0 == i
}


/// The squared distance of an empty result slot: larger than any squared
/// distance between grid points; it stands for infinity.
pub const FAR: u128 = 0xFFFF_FFFF_FFFF_FFFF_FFFF_FFFF_FFFF_FFFF;

/// A result slot: the index of a found point (if any) and its squared distance.
pub type Neighbor = (Option<usize>, u128);

/// The squared distance cap of a query: `max_dist` squared, or `FAR` for none.
pub open spec fn cap_of(max_dist: Option<u64>) -> int {
    match max_dist {
        None => FAR as int,
        Some(m) => m * m,
    }
}

/// Whether some slot holds index `i`.
pub open spec fn in_slots(b: Seq<Neighbor>, i: usize) -> bool {
    exists|s: int| 0 <= s < b.len() && b[s].0 == Some(i)
}

/// `b` holds the nearest neighbours of `q` among the points of `pts` whose
/// indices are in `seen`, counting only points at squared distance below `cap`:
/// filled slots come first, in ascending order of squared distance, each with
/// a distinct index and its true squared distance; empty slots hold `FAR`; and
/// any such point left out is no nearer than the last slot.
pub open spec fn knn_state(
    b: Seq<Neighbor>,
    seen: Set<usize>,
    pts: Seq<UTMCoordinates>,
    q: UTMCoordinates,
    cap: int,
) -> bool {
    &&& b.len() > 0
    &&& (forall|s: int|
        #![trigger b[s]]
        0 <= s < b.len() ==> match b[s].0 {
            Some(i) => seen.contains(i) && i < pts.len() && b[s].1 == sq_dist(pts[i as int], q)
                && b[s].1 < cap,
            None => b[s].1 == FAR,
        })
    &&& (forall|s: int, t: int| 0 <= s < t < b.len() ==> b[s].1 <= b[t].1)
    &&& (forall|s: int, t: int|
        0 <= s < t < b.len() && (#[trigger] b[t]).0.is_some() ==> (#[trigger] b[s]).0.is_some())
    &&& (forall|s: int, t: int|
        0 <= s < t < b.len() && (#[trigger] b[s]).0.is_some() ==> b[s].0 != (#[trigger] b[t]).0)
    &&& (forall|i: usize|
        seen.contains(i) && i < pts.len() && sq_dist(pts[i as int], q) < cap ==> in_slots(b, i)
            || sq_dist(#[trigger] pts[i as int], q) >= b[b.len() - 1].1)
}

/// All indices of `pts`.
pub open spec fn all_indices(pts: Seq<UTMCoordinates>) -> Set<usize> {
    Set::new(|i: usize| i < pts.len())
}

/// `b` is a full answer of a bounded nearest-neighbour query on `pts`.
pub open spec fn knn_result(
    b: Seq<Neighbor>,
    pts: Seq<UTMCoordinates>,
    q: UTMCoordinates,
    cap: int,
) -> bool {
    knn_state(b, all_indices(pts), pts, q, cap)
}

/// Puts `(Some(idx), d)` after the slots whose distance is at most `d`, dropping
/// the last slot; leaves `best` as it is if there is no such place. Returns the
/// place.
fn insert_neighbor(best: &mut Vec<Neighbor>, idx: usize, d: u128) -> (pos: usize)
    requires
        old(best).len() > 0,
        forall|s: int, t: int| 0 <= s < t < old(best).len() ==> old(best)@[s].1 <= old(best)@[t].1,
    ensures
        pos <= old(best).len(),
        forall|s: int| 0 <= s < pos ==> (#[trigger] old(best)@[s]).1 <= d,
        forall|s: int| pos <= s < old(best).len() ==> (#[trigger] old(best)@[s]).1 > d,
        final(best)@ == (if pos < old(best).len() {
            old(best)@.drop_last().insert(pos as int, (Some(idx), d))
        } else {
            old(best)@
        }),
{
    let n = best.len();
    let mut lo: usize = 0;
    let mut hi: usize = n;
    while lo < hi
        invariant
            best@ == old(best)@,
            n == best.len(),
            0 <= lo <= hi <= n,
            forall|s: int, t: int| 0 <= s < t < n ==> best@[s].1 <= best@[t].1,
            forall|s: int| 0 <= s < lo ==> (#[trigger] best@[s]).1 <= d,
            forall|s: int| hi <= s < n ==> (#[trigger] best@[s]).1 > d,
        decreases hi - lo,
    {
        let mid = lo + (hi - lo) / 2;
        if best[mid].1 <= d {
            lo = mid + 1;
        } else {
            hi = mid;
        }
    }
    if lo < n {
        best.pop();
        best.insert(lo, (Some(idx), d));
    }
    lo
}

/// Adding a point at its sorted place keeps the state of a query.
proof fn lemma_insert_state(
    b: Seq<Neighbor>,
    seen: Set<usize>,
    pts: Seq<UTMCoordinates>,
    q: UTMCoordinates,
    cap: int,
    idx: usize,
    pos: int,
)
    requires
        knn_state(b, seen, pts, q, cap),
        cap <= FAR,
        !seen.contains(idx),
        idx < pts.len(),
        sq_dist(pts[idx as int], q) < cap,
        0 <= pos <= b.len(),
        forall|s: int| 0 <= s < pos ==> (#[trigger] b[s]).1 <= sq_dist(pts[idx as int], q),
        forall|s: int| pos <= s < b.len() ==> (#[trigger] b[s]).1 > sq_dist(pts[idx as int], q),
    ensures
        knn_state(
            if pos < b.len() {
                b.drop_last().insert(pos, (Some(idx), sq_dist(pts[idx as int], q) as u128))
            } else {
                b
            },
            seen.insert(idx),
            pts,
            q,
            cap,
        ),
{
    let d = sq_dist(pts[idx as int], q);
    let n = b.len();
    let seen2 = seen.insert(idx);
    lemma_sq_dist_bounds(pts[idx as int], q);
    if pos < n {
        let e: Neighbor = (Some(idx), d as u128);
        let c = b.drop_last().insert(pos, e);
        assert(c.len() == n);
        assert forall|s: int| 0 <= s < n implies c[s] == (if s < pos {
            b[s]
        } else if s == pos {
            e
        } else {
            b[s - 1]
        }) by {}
        assert forall|s: int| 0 <= s < c.len() implies match (#[trigger] c[s]).0 {
            Some(i) => seen2.contains(i) && i < pts.len() && c[s].1 == sq_dist(pts[i as int], q)
                && c[s].1 < cap,
            None => c[s].1 == FAR,
        } by {
            if s < pos {
                assert(c[s] == b[s]);
            } else if s > pos {
                assert(c[s] == b[s - 1]);
            }
        }
        assert forall|s: int, t: int| 0 <= s < t < c.len() implies c[s].1 <= c[t].1 by {
            if s < pos {
                if t > pos {
                    assert(b[s].1 <= b[t - 1].1);
                }
            } else if s > pos {
                assert(b[s - 1].1 <= b[t - 1].1);
            }
        }
        assert forall|s: int, t: int|
            0 <= s < t < c.len() && (#[trigger] c[t]).0.is_some() implies (#[trigger] c[s]).0.is_some() by {
            if s != pos && t != pos {
                let s0 = if s < pos { s } else { s - 1 };
                let t0 = if t < pos { t } else { t - 1 };
                assert(b[s0] == c[s] && b[t0] == c[t]);
                assert(b[t0].0.is_some() ==> b[s0].0.is_some());
            } else if t == pos {
                assert(b[s] == c[s]);
                if b[s].0.is_none() {
                    assert(b[s].1 == FAR);
                }
            }
        }
        assert forall|s: int, t: int|
            0 <= s < t < c.len() && (#[trigger] c[s]).0.is_some() implies c[s].0 != (#[trigger] c[t]).0 by {
            let s0 = if s < pos { s } else { s - 1 };
            let t0 = if t < pos { t } else { t - 1 };
            if s != pos && t != pos {
                assert(b[s0] == c[s] && b[t0] == c[t]);
                assert(b[s0].0 != b[t0].0);
            } else if s == pos {
                assert(b[t0] == c[t]);
                if b[t0].0 == Some(idx) {
                    assert(seen.contains(idx));
                }
            } else {
                assert(b[s0] == c[s]);
                if b[s0].0 == Some(idx) {
                    assert(seen.contains(idx));
                }
            }
        }
        // the new last slot is no farther than the old one
        assert(c[n - 1].1 <= b[n - 1].1) by {
            if pos == n - 1 {
                assert(c[n - 1] == e);
            } else {
                assert(c[n - 1] == b[n - 2]);
            }
        }
        assert forall|i: usize|
            seen2.contains(i) && i < pts.len() && sq_dist(pts[i as int], q) < cap implies in_slots(c, i)
                || sq_dist(#[trigger] pts[i as int], q) >= c[c.len() - 1].1 by {
            if i == idx {
                assert(c[pos].0 == Some(idx));
            } else if in_slots(b, i) {
                let s = choose|s: int| 0 <= s < b.len() && b[s].0 == Some(i);
                if s < pos {
                    assert(c[s] == b[s]);
                } else if s < n - 1 {
                    assert(c[s + 1] == b[s]);
                } else {
                    assert(b[n - 1].1 == sq_dist(pts[i as int], q));
                }
            }
        }
    } else {
        assert forall|s: int| 0 <= s < b.len() implies match (#[trigger] b[s]).0 {
            Some(i) => seen2.contains(i) && i < pts.len() && b[s].1 == sq_dist(pts[i as int], q)
                && b[s].1 < cap,
            None => b[s].1 == FAR,
        } by {}
        assert forall|i: usize|
            seen2.contains(i) && i < pts.len() && sq_dist(pts[i as int], q) < cap implies in_slots(b, i)
                || sq_dist(#[trigger] pts[i as int], q) >= b[b.len() - 1].1 by {
            if i == idx {
                assert(b[n - 1].1 <= d);
            }
        }
    }
}

/// Points that are no nearer than the cap, or farther than the last slot, can
/// be counted as seen without a visit.
proof fn lemma_skip_far(
    b: Seq<Neighbor>,
    seen: Set<usize>,
    far: Set<usize>,
    pts: Seq<UTMCoordinates>,
    q: UTMCoordinates,
    cap: int,
    sep: int,
)
    requires
        knn_state(b, seen, pts, q, cap),
        sep >= cap || sep > b[b.len() - 1].1,
        forall|i: usize| far.contains(i) ==> i < pts.len() && sq_dist(#[trigger] pts[i as int], q) >= sep,
    ensures
        knn_state(b, seen.union(far), pts, q, cap),
{
    assert forall|s: int| 0 <= s < b.len() implies match (#[trigger] b[s]).0 {
        Some(i) => seen.union(far).contains(i) && i < pts.len() && b[s].1 == sq_dist(pts[i as int], q)
            && b[s].1 < cap,
        None => b[s].1 == FAR,
    } by {}
}

/// A point on the far side of a splitting plane is at least as far from the
/// query as the plane is.
proof fn lemma_plane_bound(p: UTMCoordinates, q: UTMCoordinates, pivot: UTMCoordinates, y_axis: bool)
    requires
        (coord(q, y_axis) < coord(pivot, y_axis) && coord(p, y_axis) >= coord(pivot, y_axis)) || (
        coord(q, y_axis) >= coord(pivot, y_axis) && coord(p, y_axis) < coord(pivot, y_axis)),
    ensures
        sq_dist(p, q) >= (coord(q, y_axis) - coord(pivot, y_axis)) * (coord(q, y_axis) - coord(
            pivot,
            y_axis,
        )),
{
    let a = coord(p, y_axis) - coord(q, y_axis);
    let c = coord(pivot, y_axis) - coord(q, y_axis);
    assert(a * a >= c * c) by (nonlinear_arith)
        requires
            (0 < c && c <= a) || (c <= 0 && a < c),
    ;
    assert(c * c == (coord(q, y_axis) - coord(pivot, y_axis)) * (coord(q, y_axis) - coord(
        pivot,
        y_axis,
    ))) by (nonlinear_arith)
        requires
            c == coord(pivot, y_axis) - coord(q, y_axis),
    ;
    assert((p.x - q.x) * (p.x - q.x) >= 0) by (nonlinear_arith);
    assert((p.y - q.y) * (p.y - q.y) >= 0) by (nonlinear_arith);
    if y_axis {
        assert(a * a == (p.y - q.y) * (p.y - q.y));
    } else {
        assert(a * a == (p.x - q.x) * (p.x - q.x));
    }
}

/// The points of the subtree across the splitting plane from the query are at
/// least as far from it as the plane is.
proof fn lemma_far_points(node: &TreeNode, y_axis: bool, pts: Seq<UTMCoordinates>, q: UTMCoordinates)
    requires
        node.wf(y_axis, pts),
    ensures
        coord(q, y_axis) < coord(node.point, y_axis) ==> forall|i: usize|
            TreeNode::indices_of(node.right).contains(i) ==> i < pts.len() && sq_dist(
                #[trigger] pts[i as int],
                q,
            ) >= (coord(q, y_axis) - coord(node.point, y_axis)) * (coord(q, y_axis) - coord(
                node.point,
                y_axis,
            )),
        coord(q, y_axis) >= coord(node.point, y_axis) ==> forall|i: usize|
            TreeNode::indices_of(node.left).contains(i) ==> i < pts.len() && sq_dist(
                #[trigger] pts[i as int],
                q,
            ) >= (coord(q, y_axis) - coord(node.point, y_axis)) * (coord(q, y_axis) - coord(
                node.point,
                y_axis,
            )),
{
    assert forall|i: usize| TreeNode::indices_of(node.right).contains(i) && coord(q, y_axis) < coord(
        node.point,
        y_axis,
    ) implies i < pts.len() && sq_dist(#[trigger] pts[i as int], q) >= (coord(q, y_axis) - coord(
        node.point,
        y_axis,
    )) * (coord(q, y_axis) - coord(node.point, y_axis)) by {
        lemma_plane_bound(pts[i as int], q, node.point, y_axis);
    }
    assert forall|i: usize| TreeNode::indices_of(node.left).contains(i) && coord(q, y_axis) >= coord(
        node.point,
        y_axis,
    ) implies i < pts.len() && sq_dist(#[trigger] pts[i as int], q) >= (coord(q, y_axis) - coord(
        node.point,
        y_axis,
    )) * (coord(q, y_axis) - coord(node.point, y_axis)) by {
        lemma_plane_bound(pts[i as int], q, node.point, y_axis);
    }
}

impl TreeNode {
    /// Descends towards `query` first, then offers this node's point to `best`,
    /// then visits the far subtree unless the splitting plane lies at or beyond
    /// the cap or beyond the last slot.
    fn nearest_neighbors(
        &self,
        query: UTMCoordinates,
        best: &mut Vec<Neighbor>,
        y_axis: bool,
        cap: u128,
        pts: Ghost<Seq<UTMCoordinates>>,
        seen: Ghost<Set<usize>>,
    )
        requires
            self.wf(y_axis, pts@),
            knn_state(old(best)@, seen@, pts@, query, cap as int),
            seen@.disjoint(self.indices()),
        ensures
            knn_state(final(best)@, seen@.union(self.indices()), pts@, query, cap as int),
            final(best).len() == old(best).len(),
        decreases self,
    {
        let ghost l = TreeNode::indices_of(self.left);
        let ghost r = TreeNode::indices_of(self.right);
        let ghost mut cur = seen@;
        let left = coord_of(query, y_axis) < coord_of(self.point, y_axis);
        if left {
            match &self.left {
                Some(c) => {
                    c.nearest_neighbors(query, best, !y_axis, cap, pts, Ghost(cur));
                    proof {
                        cur = cur.union(l);
                    }
                },
                None => {
                    assert(cur.union(l) =~= cur);
                    proof {
                        cur = cur.union(l);
                    }
                },
            }
        } else {
            match &self.right {
                Some(c) => {
                    c.nearest_neighbors(query, best, !y_axis, cap, pts, Ghost(cur));
                    proof {
                        cur = cur.union(r);
                    }
                },
                None => {
                    assert(cur.union(r) =~= cur);
                    proof {
                        cur = cur.union(r);
                    }
                },
            }
        }
        let ghost b0 = best@;
        let d = self.point.squared_dist(query);
        if d < cap {
            let pos = insert_neighbor(best, self.index, d);
            proof {
                lemma_insert_state(b0, cur, pts@, query, cap as int, self.index, pos as int);
            }
        } else {
            assert forall|s: int| 0 <= s < b0.len() implies match (#[trigger] b0[s]).0 {
                Some(i) => cur.insert(self.index).contains(i) && i < pts@.len() && b0[s].1
                    == sq_dist(pts@[i as int], query) && b0[s].1 < cap,
                None => b0[s].1 == FAR,
            } by {}
        }
        proof {
            cur = cur.insert(self.index);
        }
        let ghost far_set = if left {
            r
        } else {
            l
        };
        let far = if left {
            &self.right
        } else {
            &self.left
        };
        match far {
            Some(c) => {
                let a = coord_of(query, y_axis) as i64 - coord_of(self.point, y_axis) as i64;
                let abs_a: u128 = if a < 0 {
                    (-a) as u128
                } else {
                    a as u128
                };
                assert(abs_a * abs_a == a * a) by (nonlinear_arith)
                    requires
                        abs_a == a || abs_a == -a,
                ;
                assert(abs_a * abs_a < 0x1_0000_0000_0000_0000) by (nonlinear_arith)
                    requires
                        abs_a < 0x1_0000_0000,
                ;
                let sep = abs_a * abs_a;
                let last = best[best.len() - 1].1;
                if sep < cap && sep <= last {
                    c.nearest_neighbors(query, best, !y_axis, cap, pts, Ghost(cur));
                } else {
                    proof {
                        lemma_far_points(self, y_axis, pts@, query);
                    }
                    proof {
                        lemma_skip_far(best@, cur, far_set, pts@, query, cap as int, sep as int);
                    }
                }
                proof {
                    cur = cur.union(far_set);
                }
            },
            None => {
                assert(cur.union(far_set) =~= cur);
                proof {
                    cur = cur.union(far_set);
                }
            },
        }
        assert(cur =~= seen@.union(self.indices()));
    }
}


/// `r` is the trimmed answer of a bounded query for the `k` nearest neighbours
/// of `q` on `pts`: at most `k` found points, ascending by squared distance,
/// distinct, each with its true squared distance below `cap`; any point below
/// the cap that is left out comes after a full answer, no nearer than its last.
pub open spec fn knn_collected(
    r: Seq<Neighbor>,
    k: int,
    pts: Seq<UTMCoordinates>,
    q: UTMCoordinates,
    cap: int,
) -> bool {
    &&& r.len() <= k
    &&& (forall|s: int|
        #![trigger r[s]]
        0 <= s < r.len() ==> match r[s].0 {
            Some(i) => i < pts.len() && r[s].1 == sq_dist(pts[i as int], q) && r[s].1 < cap,
            None => false,
        })
    &&& (forall|s: int, t: int| 0 <= s < t < r.len() ==> r[s].1 <= r[t].1)
    &&& (forall|s: int, t: int| 0 <= s < t < r.len() ==> (#[trigger] r[s]).0 != (#[trigger] r[t]).0)
    &&& (forall|i: usize|
        i < pts.len() && sq_dist(pts[i as int], q) < cap ==> in_slots(r, i) || (r.len() == k && (k
            == 0 || sq_dist(#[trigger] pts[i as int], q) >= r[k - 1].1)))
}

/// A static k-d tree over a set of grid points, each known by its index in the
/// array the tree was built from. The root splits on X, its children on Y, and
/// so on.
pub struct UTMTree {
    root: Option<Box<TreeNode>>,
    points: Ghost<Seq<UTMCoordinates>>,
}

impl View for UTMTree {
    type V = Seq<UTMCoordinates>;

    /// The points the tree was built from, by index.
    closed spec fn view(&self) -> Seq<UTMCoordinates> {
        self.points@
    }
}

impl UTMTree {
    pub closed spec fn wf(&self) -> bool {
        &&& TreeNode::wf_opt(self.root, false, self.points@)
        &&& TreeNode::indices_of(self.root) == all_indices(self.points@)
    }

    /// Builds a tree over `data`.
    pub fn new(data: &[UTMCoordinates]) -> (r: UTMTree)
        ensures
            r.wf(),
            r@ == data@,
    {
        let n = data.len();
        let mut refs: Vec<Entry> = Vec::new();
        let mut i: usize = 0;
        while i < n
            invariant
                n == data@.len(),
                i <= n,
                refs.len() == i,
                forall|k: int| 0 <= k < i ==> (#[trigger] refs@[k]) == (k as usize, data@[k]),
            decreases n - i,
        {
            refs.push((i, data[i]));
            i += 1;
        }
        proof {
            assert forall|a: int, b: int| 0 <= a < refs.len() && 0 <= b < refs.len() && a != b implies refs@[a]
                != refs@[b] by {
                assert(refs@[a].0 == a && refs@[b].0 == b);
            }
            assert forall|k: int| 0 <= k < refs.len() implies (#[trigger] refs@[k]).0 < data@.len()
                && data@[refs@[k].0 as int] == refs@[k].1 by {
                assert(refs@[k] == (k as usize, data@[k]));
            }
            assert forall|j: usize| index_set(refs@).contains(j) <==> all_indices(data@).contains(j) by {
                if j < n {
                    assert(refs@[j as int].0 == j);
                }
            }
            assert(index_set(refs@) =~= all_indices(data@));
        }
        let root = TreeNode::new(refs, false, Ghost(data@));
        UTMTree { root, points: Ghost(data@) }
    }

    /// Finds the `k = out.len()` nearest points to `query` whose distance is
    /// below `max_dist` (no limit for `None`). `out` receives them in ascending
    /// order of squared distance, each as its index and squared distance; the
    /// slots left over hold `(None, FAR)`.
    pub fn nearest_neighbors(
        &self,
        query: UTMCoordinates,
        out: &mut Vec<Neighbor>,
        max_dist: Option<u64>,
    )
        requires
            self.wf(),
        ensures
            final(out).len() == old(out).len(),
            old(out).len() > 0 ==> knn_result(final(out)@, self@, query, cap_of(max_dist)),
    {
        let n = out.len();
        let mut i: usize = 0;
        while i < n
            invariant
                out.len() == n,
                i <= n,
                forall|k: int| 0 <= k < i ==> (#[trigger] out@[k]) == (None::<usize>, FAR),
            decreases n - i,
        {
            out[i] = (None, FAR);
            i += 1;
        }
        if n == 0 {
            return ;
        }
        let cap: u128 = match max_dist {
            None => FAR,
            Some(m) => {
                assert((m as u128) * (m as u128) <= 0xFFFF_FFFF_FFFF_FFFF_FFFF_FFFF_FFFF_FFFF) by (nonlinear_arith)
                    requires
                        m <= 0xFFFF_FFFF_FFFF_FFFF,
                ;
                (m as u128) * (m as u128)
            },
        };
        assert(knn_state(out@, Set::empty(), self.points@, query, cap as int));
        match &self.root {
            Some(root) => {
                root.nearest_neighbors(query, out, false, cap, self.points, Ghost(Set::empty()));
                assert(Set::<usize>::empty().union(root.indices()) =~= all_indices(self.points@));
            },
            None => {
                assert(all_indices(self.points@) =~= Set::empty());
            },
        }
    }

    /// Like `nearest_neighbors` with a fresh buffer of `k` slots, trimmed to
    /// the slots that were filled.
    pub fn collect_nearest(&self, query: UTMCoordinates, k: usize, max_dist: Option<u64>) -> (r: Vec<
        Neighbor,
    >)
        requires
            self.wf(),
        ensures
            knn_collected(r@, k as int, self@, query, cap_of(max_dist)),
    {
        let mut out: Vec<Neighbor> = Vec::new();
        let mut i: usize = 0;
        while i < k
            invariant
                i <= k,
                out.len() == i,
            decreases k - i,
        {
            out.push((None, FAR));
            i += 1;
        }
        self.nearest_neighbors(query, &mut out, max_dist);
        let mut m: usize = 0;
        while m < k && out[m].0.is_some()
            invariant
                m <= k,
                out.len() == k,
                forall|s: int| 0 <= s < m ==> (#[trigger] out@[s]).0.is_some(),
            decreases k - m,
        {
            m += 1;
        }
        let ghost full = out@;
        out.truncate(m);
        proof {
            if k > 0 {
                let pts = self@;
                let q = query;
                let cap = cap_of(max_dist);
                assert(knn_result(full, pts, q, cap));
                assert(out@ =~= full.subrange(0, m as int));
                assert forall|i: usize|
                    i < pts.len() && sq_dist(pts[i as int], q) < cap implies in_slots(out@, i) || (out@.len() == k && (k
                        == 0 || sq_dist(#[trigger] pts[i as int], q) >= out@[k - 1].1)) by {
                    assert(all_indices(pts).contains(i));
                    lemma_sq_dist_bounds(pts[i as int], q);
                    if in_slots(full, i) {
                        let s = choose|s: int| 0 <= s < full.len() && full[s].0 == Some(i);
                        if s >= m {
                            assert(full[m as int].0.is_none());
                        }
                        assert(out@[s] == full[s]);
                    } else {
                        if m < k {
                            assert(full[m as int].0.is_none());
                            assert(full[m as int].1 <= full[k - 1].1);
                        }
                    }
                }
                assert forall|s: int, t: int| 0 <= s < t < out@.len() implies (#[trigger] out@[s]).0
                    != (#[trigger] out@[t]).0 by {
                    assert(out@[s] == full[s] && out@[t] == full[t]);
                    assert(full[s].0.is_some());
                }
                assert forall|s: int| 0 <= s < out@.len() implies match (#[trigger] out@[s]).0 {
                    Some(i) => i < pts.len() && out@[s].1 == sq_dist(pts[i as int], q) && out@[s].1 < cap,
                    None => false,
                } by {
                    assert(out@[s] == full[s]);
                }
                assert forall|s: int, t: int| 0 <= s < t < out@.len() implies out@[s].1 <= out@[t].1 by {
                    assert(out@[s] == full[s] && out@[t] == full[t]);
                }
            }
        }
        out
    }
}

} // verus!
