//! The spatial palette index: a KD-tree over colors with epsilon-relaxed
//! nearest-neighbor search and true removal of returned points.
//!
//! Nodes live in a flat arena; each subtree occupies one contiguous run of
//! arena slots and covers one contiguous range of point slots. Deleted
//! points stay in place as `None` (soft delete); every node counts the
//! live points of its range, and a node whose count reaches zero is never
//! traversed again.

use vstd::prelude::*;

use crate::color::{channel_val, spec_dist2, RGB};

verus! {

use vstd::multiset::Multiset;

/// Buckets at or below this size become leaves.
pub const MAX_LEAF_SIZE: usize = 50;

/// Search-cost counters reported by every probe, for observability.
#[derive(Debug, Clone, Copy, PartialEq, Eq, Structural)]
pub struct PerformanceStats {
    pub nodes_checked: u64,
    pub leaf_nodes_checked: u64,
    pub points_checked: u64,
}

impl PerformanceStats {
    pub fn new() -> (r: PerformanceStats)
        ensures
            r.nodes_checked == 0,
            r.leaf_nodes_checked == 0,
            r.points_checked == 0,
    {
        PerformanceStats { nodes_checked: 0, leaf_nodes_checked: 0, points_checked: 0 }
    }
}

/// Adds one, stopping at the counter's ceiling instead of wrapping.
fn bump(x: u64) -> (r: u64)
    ensures
        r == if x < u64::MAX { x + 1 } else { x as int },
{
    if x < u64::MAX {
        x + 1
    } else {
        x
    }
}

/// The outcome of a probe: the color found, if any, and what the search
/// cost.
pub struct SearchResult {
    pub res: Option<RGB>,
    pub stats: PerformanceStats,
}

#[derive(Clone, Copy)]
enum NodeData {
    Internal { left: usize, right: usize, dimension: u8, median_val: u8 },
    Leaf,
}

#[derive(Clone, Copy)]
struct Node {
    num_points: usize,
    lo: usize,
    hi: usize,
    data: NodeData,
}

/// How many live (non-deleted) point slots lie in `[lo, hi)`.
spec fn live_count(s: Seq<Option<RGB>>, lo: int, hi: int) -> int
    decreases hi - lo,
{
    if hi <= lo {
        0
    } else {
        live_count(s, lo, hi - 1) + if s[hi - 1] is Some {
            1int
        } else {
            0int
        }
    }
}

/// The multiset of live colors in the whole point array.
spec fn live_mset(s: Seq<Option<RGB>>) -> Multiset<RGB>
    decreases s.len(),
{
    if s.len() == 0 {
        Multiset::empty()
    } else {
        match s.last() {
            Some(c) => live_mset(s.drop_last()).insert(c),
            None => live_mset(s.drop_last()),
        }
    }
}

/// Well-formedness of the subtree rooted at arena slot `k`, which occupies
/// arena slots `[k, end)`: ranges nest, counts match the live points of
/// each range, and an internal node's median separates its halves.
spec fn wf_node(points: Seq<Option<RGB>>, nodes: Seq<Node>, k: int, end: int) -> bool
    decreases end - k,
{
    &&& 0 <= k < end <= nodes.len()
    &&& 0 <= nodes[k].lo <= nodes[k].hi <= points.len()
    &&& nodes[k].num_points == live_count(points, nodes[k].lo as int, nodes[k].hi as int)
    &&& match nodes[k].data {
        NodeData::Leaf => end == k + 1,
        NodeData::Internal { left, right, dimension, median_val } => {
            &&& left == k + 1
            &&& k + 1 < right < end
            &&& dimension < 3
            &&& nodes[k + 1].lo == nodes[k].lo
            &&& nodes[k + 1].hi == nodes[right as int].lo
            &&& nodes[right as int].hi == nodes[k].hi
            &&& nodes[k].lo < nodes[k + 1].hi < nodes[k].hi
            &&& (forall|p: int| nodes[k].lo <= p < nodes[k + 1].hi
                ==> ((#[trigger] points[p]) matches Some(c)
                    ==> channel_val(c, dimension as int) <= median_val))
            &&& (forall|p: int| nodes[k + 1].hi <= p < nodes[k].hi
                ==> ((#[trigger] points[p]) matches Some(c)
                    ==> channel_val(c, dimension as int) >= median_val))
            &&& wf_node(points, nodes, k + 1, right as int)
            &&& wf_node(points, nodes, right as int, end)
        },
    }
}

/// The first-encountered minimum among the live slots of `[lo, hi)`: the
/// slot and its squared distance to `target`. A later slot wins only by a
/// strictly smaller distance.
spec fn spec_leaf_best(
    points: Seq<Option<RGB>>,
    lo: int,
    hi: int,
    target: RGB,
) -> Option<(int, int)>
    decreases hi - lo,
{
    if hi <= lo {
        None
    } else {
        let prev = spec_leaf_best(points, lo, hi - 1, target);
        match points[hi - 1] {
            Some(c) => match prev {
                None => Some((hi - 1, spec_dist2(c, target))),
                Some(b) => if spec_dist2(c, target) < b.1 {
                    Some((hi - 1, spec_dist2(c, target)))
                } else {
                    Some(b)
                },
            },
            None => prev,
        }
    }
}

/// The exact outcome of the relaxed search below arena slot `k`: which
/// slot comes back, ties and pruning included, as a function of the index
/// state, the target and the relaxation alone.
spec fn spec_search(
    points: Seq<Option<RGB>>,
    nodes: Seq<Node>,
    k: int,
    end: int,
    target: RGB,
    en: int,
    ed: int,
) -> Option<(int, int)>
    decreases end - k
        when wf_node(points, nodes, k, end)
{
    if nodes[k].num_points == 0 {
        None
    } else {
        match nodes[k].data {
            NodeData::Leaf => spec_leaf_best(
                points,
                nodes[k].lo as int,
                nodes[k].hi as int,
                target,
            ),
            NodeData::Internal { left, right, dimension, median_val } => {
                let diff = channel_val(target, dimension as int) - median_val;
                let go_left = diff < 0;
                let r1 = if go_left {
                    spec_search(points, nodes, k + 1, right as int, target, en, ed)
                } else {
                    spec_search(points, nodes, right as int, end, target, en, ed)
                };
                let accepted = match r1 {
                    Some(b1) => b1.1 * (ed * ed) < (diff * diff) * ((en + ed) * (en + ed)),
                    None => false,
                };
                if accepted {
                    r1
                } else {
                    let r2 = if go_left {
                        spec_search(points, nodes, right as int, end, target, en, ed)
                    } else {
                        spec_search(points, nodes, k + 1, right as int, target, en, ed)
                    };
                    match (r1, r2) {
                        (None, None) => None,
                        (Some(_), None) => r1,
                        (None, Some(_)) => r2,
                        (Some(b1), Some(b2)) => if b2.1 < b1.1 {
                            r2
                        } else {
                            r1
                        },
                    }
                }
            },
        }
    }
}

/// Whether an executable search result denotes the given spec-level one.
spec fn res_matches(r: Option<(usize, u64)>, s: Option<(int, int)>) -> bool {
    match r {
        None => s is None,
        Some(b) => s == Some((b.0 as int, b.1 as int)),
    }
}

/// A palette index over RGB colors.
pub struct KDTree {
    points: Vec<Option<RGB>>,
    nodes: Vec<Node>,
}

impl KDTree {
    /// The multiset of colors still available in the index.
    pub closed spec fn live(self) -> Multiset<RGB> {
        live_mset(self.points@)
    }

    /// The color a probe with the given target and relaxation returns: a
    /// total function of the index state and the arguments, so equal
    /// probes agree and ties resolve the same way every time.
    pub closed spec fn probe(self, target: RGB, en: int, ed: int) -> Option<RGB> {
        match spec_search(
            self.points@,
            self.nodes@,
            0,
            self.nodes@.len() as int,
            target,
            en,
            ed,
        ) {
            Some(b) => Some(self.points@[b.0]->0),
            None => None,
        }
    }

    /// The index's structural invariant.
    pub closed spec fn wf(self) -> bool {
        &&& self.nodes@.len() >= 1
        &&& wf_node(self.points@, self.nodes@, 0, self.nodes@.len() as int)
        &&& self.nodes@[0].lo == 0
        &&& self.nodes@[0].hi == self.points@.len()
    }
}

/// Counting live slots splits over any midpoint of the range.
proof fn lemma_live_count_split(s: Seq<Option<RGB>>, lo: int, mid: int, hi: int)
    requires
        lo <= mid <= hi,
    ensures
        live_count(s, lo, hi) == live_count(s, lo, mid) + live_count(s, mid, hi),
    decreases hi - mid,
{
    if mid < hi {
        lemma_live_count_split(s, lo, mid, hi - 1);
    }
}

/// The live count of a range only depends on the slots in the range.
proof fn lemma_live_count_agree(s1: Seq<Option<RGB>>, s2: Seq<Option<RGB>>, lo: int, hi: int)
    requires
        forall|p: int| lo <= p < hi ==> s1[p] == s2[p],
    ensures
        live_count(s1, lo, hi) == live_count(s2, lo, hi),
    decreases hi - lo,
{
    if lo < hi {
        lemma_live_count_agree(s1, s2, lo, hi - 1);
    }
}

/// A live slot inside the range makes its live count positive.
proof fn lemma_live_count_member(s: Seq<Option<RGB>>, lo: int, hi: int, i: int)
    requires
        lo <= i < hi,
        s[i] is Some,
    ensures
        live_count(s, lo, hi) >= live_count(s, lo, hi - 1),
        live_count(s, lo, hi) >= 1,
    decreases hi - i,
{
    lemma_live_count_nonneg(s, lo, i);
    if i < hi - 1 {
        lemma_live_count_member(s, lo, hi - 1, i);
    }
}

proof fn lemma_live_count_nonneg(s: Seq<Option<RGB>>, lo: int, hi: int)
    ensures
        live_count(s, lo, hi) >= 0,
    decreases hi - lo,
{
    if lo < hi {
        lemma_live_count_nonneg(s, lo, hi - 1);
    }
}

/// Soft-deleting a live slot inside the range lowers its count by one;
/// outside the range the count does not move.
proof fn lemma_live_count_delete(s: Seq<Option<RGB>>, lo: int, hi: int, i: int)
    requires
        0 <= i < s.len(),
        s[i] is Some,
        0 <= lo,
        hi <= s.len(),
    ensures
        lo <= i < hi ==> live_count(s.update(i, None), lo, hi) == live_count(s, lo, hi) - 1,
        !(lo <= i < hi) ==> live_count(s.update(i, None), lo, hi) == live_count(s, lo, hi),
    decreases hi - lo,
{
    if lo < hi {
        lemma_live_count_delete(s, lo, hi - 1, i);
        if i == hi - 1 {
            assert(s.update(i, None)[hi - 1] is None);
        } else {
            assert(s.update(i, None)[hi - 1] == s[hi - 1]);
        }
    }
}

/// The whole-array live count is the size of the live multiset.
proof fn lemma_live_count_is_mset_len(s: Seq<Option<RGB>>)
    ensures
        live_count(s, 0, s.len() as int) == live_mset(s).len(),
    decreases s.len(),
{
    broadcast use vstd::multiset::group_multiset_axioms;

    if s.len() > 0 {
        lemma_live_count_is_mset_len(s.drop_last());
        lemma_live_count_agree(s, s.drop_last(), 0, s.len() - 1);
    }
}

/// A live slot's color is in the live multiset.
proof fn lemma_live_mset_member(s: Seq<Option<RGB>>, i: int, c: RGB)
    requires
        0 <= i < s.len(),
        s[i] == Some(c),
    ensures
        live_mset(s).count(c) >= 1,
    decreases s.len(),
{
    broadcast use vstd::multiset::group_multiset_axioms;

    if i < s.len() - 1 {
        lemma_live_mset_member(s.drop_last(), i, c);
    }
}

/// Any color of the live multiset sits in some live slot.
proof fn lemma_live_mset_exists(s: Seq<Option<RGB>>, c: RGB)
    requires
        live_mset(s).count(c) >= 1,
    ensures
        exists|i: int| 0 <= i < s.len() && s[i] == Some(c),
    decreases s.len(),
{
    broadcast use vstd::multiset::group_multiset_axioms;

    if s.len() > 0 {
        if s.last() == Some(c) {
            assert(s[s.len() - 1] == Some(c));
        } else {
            lemma_live_mset_exists(s.drop_last(), c);
            let i = choose|i: int| 0 <= i < s.drop_last().len() && s.drop_last()[i] == Some(c);
            assert(s[i] == Some(c));
        }
    }
}

/// Soft-deleting slot `i` removes exactly one occurrence of its color from
/// the live multiset.
proof fn lemma_live_mset_delete(s: Seq<Option<RGB>>, i: int, c: RGB)
    requires
        0 <= i < s.len(),
        s[i] == Some(c),
    ensures
        live_mset(s.update(i, None)) == live_mset(s).remove(c),
    decreases s.len(),
{
    broadcast use vstd::multiset::group_multiset_axioms;

    let n = s.len() as int;
    if i == n - 1 {
        assert(s.update(i, None).drop_last() =~= s.drop_last());
        assert(live_mset(s.update(i, None)) == live_mset(s.drop_last()));
        assert(live_mset(s) == live_mset(s.drop_last()).insert(c));
        assert(live_mset(s.drop_last()).insert(c).remove(c) =~= live_mset(s.drop_last()));
    } else {
        lemma_live_mset_delete(s.drop_last(), i, c);
        assert(s.update(i, None).drop_last() =~= s.drop_last().update(i, None));
        lemma_live_mset_member(s.drop_last(), i, c);
        match s.last() {
            Some(d) => {
                assert(live_mset(s.update(i, None))
                    == live_mset(s.drop_last().update(i, None)).insert(d));
                assert(live_mset(s.drop_last()).remove(c).insert(d)
                    =~= live_mset(s.drop_last()).insert(d).remove(c));
            },
            None => {},
        }
    }
}

/// Sorts `points[lo..hi]` in place by channel `dim` (selection sort),
/// touching nothing outside the range and keeping the range's multiset of
/// colors.
fn sort_range(points: &mut Vec<RGB>, lo: usize, hi: usize, dim: u8)
    requires
        dim < 3,
        lo <= hi <= old(points)@.len(),
    ensures
        final(points)@.len() == old(points)@.len(),
        forall|p: int| 0 <= p < old(points)@.len() && !(lo <= p < hi)
            ==> final(points)@[p] == old(points)@[p],
        final(points)@.subrange(lo as int, hi as int).to_multiset()
            == old(points)@.subrange(lo as int, hi as int).to_multiset(),
        forall|p: int, q: int| lo <= p <= q < hi
            ==> channel_val(#[trigger] final(points)@[p], dim as int)
                <= channel_val(#[trigger] final(points)@[q], dim as int),
{
    let ghost orig = points@;
    let mut i: usize = lo;
    while i < hi
        invariant
            dim < 3,
            lo <= i <= hi <= points@.len(),
            points@.len() == orig.len(),
            forall|p: int| 0 <= p < orig.len() && !(lo <= p < hi)
                ==> points@[p] == orig[p],
            points@.subrange(lo as int, hi as int).to_multiset()
                == orig.subrange(lo as int, hi as int).to_multiset(),
            forall|p: int, q: int| lo <= p <= q < i
                ==> channel_val(#[trigger] points@[p], dim as int)
                    <= channel_val(#[trigger] points@[q], dim as int),
            forall|p: int, q: int| lo <= p < i <= q < hi
                ==> channel_val(#[trigger] points@[p], dim as int)
                    <= channel_val(#[trigger] points@[q], dim as int),
        decreases hi - i,
    {
        let mut mi: usize = i;
        let mut j: usize = i + 1;
        while j < hi
            invariant
                dim < 3,
                lo <= i <= mi < j <= hi <= points@.len(),
                forall|q: int| i <= q < j
                    ==> channel_val(points@[mi as int], dim as int)
                        <= channel_val(#[trigger] points@[q], dim as int),
            decreases hi - j,
        {
            if points[j].get_val(dim) < points[mi].get_val(dim) {
                mi = j;
            }
            j = j + 1;
        }
        if mi != i {
            let ghost before = points@;
            let a = points[i];
            let b = points[mi];
            points.set(i, b);
            points.set(mi, a);
            proof {
                broadcast use vstd::seq_lib::group_to_multiset_ensures;
                broadcast use vstd::multiset::group_multiset_axioms;

                let sub0 = before.subrange(lo as int, hi as int);
                let sub2 = points@.subrange(lo as int, hi as int);
                let ii = i - lo;
                let mm = mi - lo;
                let sub1 = sub0.update(ii as int, b);
                assert(sub2 =~= sub1.update(mm as int, a));
                assert(sub0[ii as int] == a && sub1[mm as int] == b);
                assert(sub1.to_multiset() == sub0.to_multiset().insert(b).remove(a));
                assert(sub2.to_multiset() == sub1.to_multiset().insert(a).remove(b));
                assert(sub0.contains(a));
                assert(sub2.to_multiset() =~= sub0.to_multiset()) by {
                    assert forall|c: RGB| sub2.to_multiset().count(c)
                        == sub0.to_multiset().count(c) by {
                        assert(sub0.to_multiset().count(a) >= 1);
                    }
                }
            }
        }
        i = i + 1;
    }
    proof {
        assert(points@.subrange(lo as int, hi as int).to_multiset()
            == orig.subrange(lo as int, hi as int).to_multiset());
    }
}

/// Subtree well-formedness only depends on the point slots of the
/// subtree's own range.
proof fn lemma_wf_points_agree(
    s1: Seq<Option<RGB>>,
    s2: Seq<Option<RGB>>,
    nodes: Seq<Node>,
    k: int,
    end: int,
)
    requires
        wf_node(s1, nodes, k, end),
        s1.len() == s2.len(),
        forall|p: int| nodes[k].lo <= p < nodes[k].hi ==> s1[p] == s2[p],
    ensures
        wf_node(s2, nodes, k, end),
    decreases end - k,
{
    lemma_live_count_agree(s1, s2, nodes[k].lo as int, nodes[k].hi as int);
    match nodes[k].data {
        NodeData::Leaf => {},
        NodeData::Internal { left, right, dimension, median_val } => {
            lemma_wf_points_agree(s1, s2, nodes, k + 1, right as int);
            lemma_wf_points_agree(s1, s2, nodes, right as int, end);
        },
    }
}

/// Subtree well-formedness only depends on the arena slots `[k, end)`.
proof fn lemma_wf_nodes_agree(
    points: Seq<Option<RGB>>,
    nodes1: Seq<Node>,
    nodes2: Seq<Node>,
    k: int,
    end: int,
)
    requires
        wf_node(points, nodes1, k, end),
        end <= nodes2.len(),
        forall|m: int| k <= m < end ==> nodes1[m] == nodes2[m],
    ensures
        wf_node(points, nodes2, k, end),
    decreases end - k,
{
    match nodes1[k].data {
        NodeData::Leaf => {},
        NodeData::Internal { left, right, dimension, median_val } => {
            lemma_wf_nodes_agree(points, nodes1, nodes2, k + 1, right as int);
            lemma_wf_nodes_agree(points, nodes1, nodes2, right as int, end);
        },
    }
}

/// The point array seen as all-live slots.
spec fn map_some(s: Seq<RGB>) -> Seq<Option<RGB>> {
    s.map_values(|c: RGB| Some(c))
}

proof fn lemma_live_count_all_some(s: Seq<Option<RGB>>, lo: int, hi: int)
    requires
        0 <= lo <= hi <= s.len(),
        forall|p: int| lo <= p < hi ==> (#[trigger] s[p]) is Some,
    ensures
        live_count(s, lo, hi) == hi - lo,
    decreases hi - lo,
{
    if lo < hi {
        lemma_live_count_all_some(s, lo, hi - 1);
    }
}

/// Wrapping every color in `Some` leaves the same multiset of colors.
proof fn lemma_live_mset_all_some(s: Seq<RGB>)
    ensures
        live_mset(map_some(s)) == s.to_multiset(),
    decreases s.len(),
{
    broadcast use vstd::seq_lib::group_to_multiset_ensures;
    broadcast use vstd::multiset::group_multiset_axioms;

    if s.len() == 0 {
        assert(s.to_multiset() =~= Multiset::<RGB>::empty());
    } else {
        lemma_live_mset_all_some(s.drop_last());
        assert(map_some(s).drop_last() =~= map_some(s.drop_last()));
        assert(map_some(s).last() == Some(s.last()));
        assert(s =~= s.drop_last().push(s.last()));
        assert(s.to_multiset() == s.drop_last().to_multiset().insert(s.last()));
    }
}

/// Builds the arena for the bucket `points[lo..hi]`, splitting at the true
/// median of the current dimension until a bucket fits in one leaf. The
/// bucket is permuted in place; the rest of the array stays put.
fn generate_nodes(nodes: &mut Vec<Node>, points: &mut Vec<RGB>, lo: usize, hi: usize, dimension: u8)
    requires
        dimension < 3,
        lo <= hi <= old(points)@.len(),
        old(nodes)@.len() + 2 * (hi - lo) <= usize::MAX,
    ensures
        final(points)@.len() == old(points)@.len(),
        forall|p: int| 0 <= p < old(points)@.len() && !(lo <= p < hi)
            ==> final(points)@[p] == old(points)@[p],
        final(points)@.subrange(lo as int, hi as int).to_multiset()
            == old(points)@.subrange(lo as int, hi as int).to_multiset(),
        final(nodes)@.len() > old(nodes)@.len(),
        final(nodes)@.len() <= old(nodes)@.len() + vstd::math::max(1, 2 * (hi - lo) - 1),
        final(nodes)@.subrange(0, old(nodes)@.len() as int) == old(nodes)@,
        wf_node(
            map_some(final(points)@),
            final(nodes)@,
            old(nodes)@.len() as int,
            final(nodes)@.len() as int,
        ),
        final(nodes)@[old(nodes)@.len() as int].lo == lo,
        final(nodes)@[old(nodes)@.len() as int].hi == hi,
        final(nodes)@[old(nodes)@.len() as int].num_points == hi - lo,
    decreases hi - lo,
{
    let ghost nodes0 = nodes@;
    let ghost points0 = points@;
    if hi - lo < MAX_LEAF_SIZE {
        nodes.push(Node { num_points: hi - lo, lo, hi, data: NodeData::Leaf });
        proof {
            lemma_live_count_all_some(map_some(points@), lo as int, hi as int);
            assert(nodes@.subrange(0, nodes0.len() as int) =~= nodes0);
        }
    } else {
        let mid = lo + (hi - lo) / 2;
        sort_range(points, lo, hi, dimension);
        let ghost sorted = points@;
        let median_val = points[mid].get_val(dimension);
        let this_index = nodes.len();
        nodes.push(
            Node {
                num_points: hi - lo,
                lo,
                hi,
                data: NodeData::Internal {
                    left: this_index + 1,
                    right: 0,
                    dimension,
                    median_val,
                },
            },
        );
        let ghost nodes_p = nodes@;
        let next_dimension = (dimension + 1) % 3;
        generate_nodes(nodes, points, lo, mid, next_dimension);
        let ghost points_l = points@;
        let ghost nodes_l = nodes@;
        let right_index = nodes.len();
        let nd = nodes[this_index];
        nodes.set(
            this_index,
            Node {
                num_points: nd.num_points,
                lo: nd.lo,
                hi: nd.hi,
                data: NodeData::Internal {
                    left: this_index + 1,
                    right: right_index,
                    dimension,
                    median_val,
                },
            },
        );
        let ghost nodes_m = nodes@;
        generate_nodes(nodes, points, mid, hi, next_dimension);
        proof {
            broadcast use vstd::seq_lib::group_to_multiset_ensures;
            broadcast use vstd::multiset::group_multiset_axioms;

            let k = this_index as int;
            let ri = right_index as int;
            let fl = nodes@.len() as int;
            // the left subtree still stands: its nodes were not touched and
            // its point range was not touched since it was built
            assert(nodes_m.subrange(0, nodes_l.len() as int)
                =~= nodes@.subrange(0, nodes_l.len() as int));
            assert forall|m: int| k + 1 <= m < ri implies nodes_l[m] == nodes@[m] by {
                assert(nodes_m[m] == nodes_l[m]);
                assert(nodes@.subrange(0, nodes_m.len() as int)[m] == nodes@[m]);
            }
            lemma_wf_nodes_agree(map_some(points_l), nodes_l, nodes@, k + 1, ri);
            assert(forall|p: int| lo <= p < mid ==> points_l[p] == points@[p]);
            assert(forall|p: int| lo <= p < mid
                ==> map_some(points_l)[p] == map_some(points@)[p]);
            assert(nodes@[k + 1].lo == lo && nodes@[k + 1].hi == mid);
            lemma_wf_points_agree(map_some(points_l), map_some(points@), nodes@, k + 1, ri);
            // median bounds survive the permutations of the two halves
            assert forall|p: int| lo <= p < mid implies
                ((#[trigger] map_some(points@)[p]) matches Some(c)
                    ==> channel_val(c, dimension as int) <= median_val) by {
                let subl0 = sorted.subrange(lo as int, mid as int);
                let subl1 = points_l.subrange(lo as int, mid as int);
                let v = points@[p];
                assert(points_l[p] == v);
                assert(subl1[p - lo] == v);
                assert(subl1.contains(v));
                assert(subl1.to_multiset() == subl0.to_multiset());
                assert(subl1.to_multiset().count(v) > 0);
                assert(subl0.contains(v));
                let q = choose|q: int| 0 <= q < subl0.len() && subl0[q] == v;
                assert(sorted[lo + q] == v);
                assert(channel_val(sorted[lo + q], dimension as int)
                    <= channel_val(sorted[mid as int], dimension as int));
            }
            assert(points_l.subrange(mid as int, hi as int)
                =~= sorted.subrange(mid as int, hi as int));
            assert forall|p: int| mid <= p < hi implies
                ((#[trigger] map_some(points@)[p]) matches Some(c)
                    ==> channel_val(c, dimension as int) >= median_val) by {
                let subr0 = sorted.subrange(mid as int, hi as int);
                let subr1 = points@.subrange(mid as int, hi as int);
                let v = points@[p];
                assert(subr1[p - mid] == v);
                assert(subr1.contains(v));
                assert(subr1.to_multiset()
                    == points_l.subrange(mid as int, hi as int).to_multiset());
                assert(subr1.to_multiset() == subr0.to_multiset());
                assert(subr1.to_multiset().count(v) > 0);
                assert(subr0.contains(v));
                let q = choose|q: int| 0 <= q < subr0.len() && subr0[q] == v;
                assert(sorted[mid + q] == v);
                assert(channel_val(sorted[mid as int], dimension as int)
                    <= channel_val(sorted[mid + q], dimension as int));
            }
            lemma_live_count_all_some(map_some(points@), lo as int, hi as int);
            assert(nodes@[k] == nodes_m[k]) by {
                assert(nodes@.subrange(0, nodes_m.len() as int)[k] == nodes@[k]);
            }
            assert(nodes_l[k] == nodes_p[k]) by {
                assert(nodes_l.subrange(0, nodes_p.len() as int)[k] == nodes_l[k]);
            }
            assert(nodes@[k].lo == lo && nodes@[k].hi == hi && nodes@[k].num_points == (
            hi - lo) as int);
            assert(nodes@[k].data == (NodeData::Internal {
                left: (k + 1) as usize,
                right: right_index,
                dimension,
                median_val,
            }));
            assert(nodes@[k + 1].lo == lo && nodes@[k + 1].hi == mid);
            assert(nodes@[ri].lo == mid && nodes@[ri].hi == hi) by {
                assert(nodes@[ri] == nodes@[nodes_m.len() as int]);
            }
            assert(k + 1 < ri < fl);
            assert(wf_node(map_some(points@), nodes@, k + 1, ri));
            assert(wf_node(map_some(points@), nodes@, ri, fl));
            assert(wf_node(map_some(points@), nodes@, k, fl));
            // the whole range's multiset is preserved across both halves
            let whole0 = points0.subrange(lo as int, hi as int);
            let wholes = sorted.subrange(lo as int, hi as int);
            let whole2 = points@.subrange(lo as int, hi as int);
            assert(wholes =~= sorted.subrange(lo as int, mid as int)
                + sorted.subrange(mid as int, hi as int));
            assert(whole2 =~= points@.subrange(lo as int, mid as int)
                + points@.subrange(mid as int, hi as int));
            assert(points@.subrange(lo as int, mid as int)
                =~= points_l.subrange(lo as int, mid as int));
            assert(points_l.subrange(mid as int, hi as int)
                =~= sorted.subrange(mid as int, hi as int));
            vstd::seq_lib::lemma_multiset_commutative(
                sorted.subrange(lo as int, mid as int),
                sorted.subrange(mid as int, hi as int),
            );
            vstd::seq_lib::lemma_multiset_commutative(
                points@.subrange(lo as int, mid as int),
                points@.subrange(mid as int, hi as int),
            );
            assert(whole2.to_multiset() == whole0.to_multiset());
            assert forall|m: int| 0 <= m < nodes0.len() implies nodes@[m] == nodes0[m] by {
                assert(nodes@.subrange(0, nodes_m.len() as int)[m] == nodes@[m]);
                assert(nodes_m[m] == nodes_l[m]);
                assert(nodes_l.subrange(0, nodes_p.len() as int)[m] == nodes_l[m]);
                assert(nodes_p[m] == nodes0[m]);
            }
            assert(nodes@.subrange(0, nodes0.len() as int) =~= nodes0);
        }
    }
}

impl KDTree {
    /// Builds the index over the given palette colors. The colors are
    /// partitioned recursively at the true median of the cycling split
    /// dimension; buckets at or below the leaf threshold become leaves.
    pub fn new(points: Vec<RGB>) -> (r: KDTree)
        requires
            2 * points@.len() <= usize::MAX,
        ensures
            r.wf(),
            r.live() == points@.to_multiset(),
    {
        let ghost input = points@;
        let mut pts = points;
        let mut nodes: Vec<Node> = Vec::new();
        let n = pts.len();
        generate_nodes(&mut nodes, &mut pts, 0, n, 0);
        let mut opts: Vec<Option<RGB>> = Vec::new();
        let mut k: usize = 0;
        while k < pts.len()
            invariant
                k <= pts@.len(),
                opts@.len() == k,
                forall|m: int| 0 <= m < k ==> opts@[m] == Some(#[trigger] pts@[m]),
            decreases pts@.len() - k,
        {
            let c = pts[k];
            opts.push(Some(c));
            k = k + 1;
        }
        proof {
            assert(opts@ =~= map_some(pts@));
        }
        let r = KDTree { points: opts, nodes };
        proof {
            lemma_live_mset_all_some(pts@);
            assert(pts@.subrange(0, n as int) =~= pts@);
            assert(input.subrange(0, n as int) =~= input);
            broadcast use vstd::seq_lib::group_to_multiset_ensures;

            assert(r.live() == input.to_multiset());
        }
        r
    }
}

impl KDTree {
    /// The point slots in storage order; a consumed color stays in place
    /// as `None`.
    pub closed spec fn slots(self) -> Seq<Option<RGB>> {
        self.points@
    }

    /// Read access to the point slots, for rendering the palette.
    pub fn point_slots(&self) -> (r: &Vec<Option<RGB>>)
        ensures
            r@ == self.slots(),
    {
        &self.points
    }

    /// The number of live points still in the index.
    pub fn num_points(&self) -> (r: usize)
        requires
            self.wf(),
        ensures
            r == self.live().len(),
    {
        proof {
            lemma_live_count_is_mset_len(self.points@);
        }
        self.nodes[0].num_points
    }

    /// Recursive epsilon-relaxed nearest-neighbor search below arena slot
    /// `k`, whose subtree spans arena slots `[k, end)`. Returns the slot
    /// and squared distance of the best live point found. With a zero
    /// relaxation the result is the true nearest live point of the range.
    #[verifier::loop_isolation(false)]
    fn get_closest_node(
        &self,
        target: &RGB,
        k: usize,
        Ghost(end): Ghost<int>,
        eps_num: u32,
        eps_den: u32,
        stats: &mut PerformanceStats,
    ) -> (r: Option<(usize, u64)>)
        requires
            wf_node(self.points@, self.nodes@, k as int, end),
            end <= self.nodes@.len(),
            eps_den >= 1,
        ensures
            res_matches(
                r,
                spec_search(
                    self.points@,
                    self.nodes@,
                    k as int,
                    end,
                    *target,
                    eps_num as int,
                    eps_den as int,
                ),
            ),
            match r {
                None => self.nodes@[k as int].num_points == 0,
                Some(res) => {
                    &&& self.nodes@[k as int].lo <= res.0 < self.nodes@[k as int].hi
                    &&& res.0 < self.points@.len()
                    &&& self.points@[res.0 as int] is Some
                    &&& res.1 == spec_dist2(self.points@[res.0 as int]->0, *target)
                    &&& res.1 <= 195075
                    &&& forall|m: int|
                        self.nodes@[k as int].lo <= m < self.nodes@[k as int].hi
                            && (#[trigger] self.points@[m]) is Some
                            ==> (res.1 as int) * ((eps_den as int) * (eps_den as int))
                                <= ((eps_num as int + eps_den as int) * (
                            eps_num as int + eps_den as int)) * spec_dist2(
                                self.points@[m]->0,
                                *target,
                            )
                },
            },
        decreases end - k,
    {
        let node = self.nodes[k];
        stats.nodes_checked = bump(stats.nodes_checked);
        if node.num_points == 0 {
            return None;
        }
        match node.data {
            NodeData::Leaf => {
                stats.leaf_nodes_checked = bump(stats.leaf_nodes_checked);
                let lo = node.lo;
                let hi = node.hi;
                let mut best: Option<(usize, u64)> = None;
                let mut j: usize = lo;
                while j < hi
                    invariant
                        lo <= j <= hi <= self.points@.len(),
                        res_matches(
                            best,
                            spec_leaf_best(self.points@, lo as int, j as int, *target),
                        ),
                        match best {
                            None => live_count(self.points@, lo as int, j as int) == 0,
                            Some(b) => {
                                &&& lo <= b.0 < j
                                &&& self.points@[b.0 as int] is Some
                                &&& b.1 == spec_dist2(self.points@[b.0 as int]->0, *target)
                                &&& b.1 <= 195075
                                &&& forall|m: int| lo <= m < j
                                    && (#[trigger] self.points@[m]) is Some
                                    ==> b.1 <= spec_dist2(self.points@[m]->0, *target)
                            },
                        },
                    decreases hi - j,
                {
                    match self.points[j] {
                        Some(c) => {
                            stats.points_checked = bump(stats.points_checked);
                            let d = c.dist2(target);
                            match best {
                                None => {
                                    proof {
                                        assert forall|m: int| lo <= m < j implies
                                            !((#[trigger] self.points@[m]) is Some) by {
                                            if self.points@[m] is Some {
                                                lemma_live_count_member(
                                                    self.points@,
                                                    lo as int,
                                                    j as int,
                                                    m,
                                                );
                                            }
                                        }
                                    }
                                    best = Some((j, d));
                                },
                                Some(b) => {
                                    if d < b.1 {
                                        best = Some((j, d));
                                    }
                                },
                            }
                        },
                        None => {},
                    }
                    j = j + 1;
                }
                proof {
                    assert(node == self.nodes@[k as int]);
                    match best {
                        None => {
                            assert(live_count(self.points@, lo as int, hi as int) == 0);
                            assert(node.num_points == 0);
                            assert(self.nodes@[k as int].num_points == 0);
                        },
                        Some(b) => {
                            assert(lo == self.nodes@[k as int].lo);
                            assert(hi == self.nodes@[k as int].hi);
                            assert(b.0 < self.points@.len());
                            assert forall|m: int| lo <= m < hi
                                && (#[trigger] self.points@[m]) is Some implies (
                            b.1 as int) * ((eps_den as int) * (eps_den as int)) <= ((
                            eps_num as int + eps_den as int) * (eps_num as int
                                + eps_den as int)) * spec_dist2(
                                self.points@[m]->0,
                                *target,
                            ) by {
                                lemma_relax_weaken(
                                    b.1 as int,
                                    spec_dist2(self.points@[m]->0, *target),
                                    eps_den as int,
                                    eps_num as int + eps_den as int,
                                );
                            }
                        },
                    }
                }
                best
            },
            NodeData::Internal { left, right, dimension, median_val } => {
                let tv = target.get_val(dimension);
                let diff = tv as i64 - median_val as i64;
                proof {
                    assert(0 <= diff * diff <= 65025) by (nonlinear_arith)
                        requires
                            -255 <= diff <= 255,
                    ;
                }
                let dd = (diff * diff) as u128;
                let relax = (eps_num as u128) + (eps_den as u128);
                proof {
                    assert((relax as int) * (relax as int) < 0x1_0000_0000_0000_0000_0000)
                        by (nonlinear_arith)
                        requires
                            0 <= (relax as int) < 0x2_0000_0000,
                    ;
                    assert((eps_den as int) * (eps_den as int) < 0x1_0000_0000_0000_0000_0000)
                        by (nonlinear_arith)
                        requires
                            0 <= (eps_den as int) < 0x2_0000_0000,
                    ;
                }
                let relax2 = relax * relax;
                let ed2 = (eps_den as u128) * (eps_den as u128);
                proof {
                    lemma_u128_prune_products(relax2 as int, ed2 as int, dd as int);
                }
                let ghost lo = node.lo as int;
                let ghost mid = self.nodes@[k + 1].hi as int;
                let ghost hi = node.hi as int;
                proof {
                    lemma_live_count_split(self.points@, lo, mid, hi);
                }
                let res1: Option<(usize, u64)>;
                let res2: Option<(usize, u64)>;
                if diff < 0 {
                    res1 = self.get_closest_node(
                        target,
                        left,
                        Ghost(right as int),
                        eps_num,
                        eps_den,
                        stats,
                    );
                    if let Some(b1) = res1 {
                        if (b1.1 as u128) * ed2 < dd * relax2 {
                            proof {
                                assert((b1.1 as int) * ((eps_den as int) * (eps_den as int))
                                    < ((diff as int) * (diff as int)) * ((relax as int) * (
                                relax as int)));
                                lemma_prune_sound(
                                    *self,
                                    k as int,
                                    *target,
                                    b1.1 as int,
                                    diff as int,
                                    eps_den as int,
                                    eps_num as int + eps_den as int,
                                    true,
                                );
                            }
                            return res1;
                        }
                    }
                    res2 = self.get_closest_node(
                        target,
                        right,
                        Ghost(end),
                        eps_num,
                        eps_den,
                        stats,
                    );
                } else {
                    res1 = self.get_closest_node(
                        target,
                        right,
                        Ghost(end),
                        eps_num,
                        eps_den,
                        stats,
                    );
                    if let Some(b1) = res1 {
                        if (b1.1 as u128) * ed2 < dd * relax2 {
                            proof {
                                assert((b1.1 as int) * ((eps_den as int) * (eps_den as int))
                                    < ((diff as int) * (diff as int)) * ((relax as int) * (
                                relax as int)));
                                lemma_prune_sound(
                                    *self,
                                    k as int,
                                    *target,
                                    b1.1 as int,
                                    diff as int,
                                    eps_den as int,
                                    eps_num as int + eps_den as int,
                                    false,
                                );
                            }
                            return res1;
                        }
                    }
                    res2 = self.get_closest_node(
                        target,
                        left,
                        Ghost(right as int),
                        eps_num,
                        eps_den,
                        stats,
                    );
                }
                proof {
                    assert(wf_node(self.points@, self.nodes@, k as int + 1, right as int));
                    assert(wf_node(self.points@, self.nodes@, right as int, end));
                    assert(self.nodes@[k as int + 1].num_points
                        == live_count(self.points@, lo, mid));
                    assert(self.nodes@[right as int].num_points
                        == live_count(self.points@, mid, hi));
                    assert forall|m: int| lo <= m < hi && (#[trigger] self.points@[m]) is Some
                        implies {
                        &&& (m < mid && live_count(self.points@, lo, mid) >= 1) || (m >= mid
                            && live_count(self.points@, mid, hi) >= 1)
                    } by {
                        if m < mid {
                            lemma_live_count_member(self.points@, lo, mid, m);
                        } else {
                            lemma_live_count_member(self.points@, mid, hi, m);
                        }
                    }
                }
                match (res1, res2) {
                    (None, None) => None,
                    (Some(b1), None) => Some(b1),
                    (None, Some(b2)) => Some(b2),
                    (Some(b1), Some(b2)) => {
                        proof {
                            if b2.1 < b1.1 {
                                lemma_bound_mono(b2.1 as int, b1.1 as int, eps_den as int);
                            } else {
                                lemma_bound_mono(b1.1 as int, b2.1 as int, eps_den as int);
                            }
                        }
                        if b2.1 < b1.1 {
                            Some(b2)
                        } else {
                            Some(b1)
                        }
                    },
                }
            },
        }
    }
}

impl KDTree {
    /// Walks from slot `k` down to the leaf whose point range holds slot
    /// `i`, lowering every count on the way, after the point at `i` (live
    /// in `points0`) has been soft-deleted.
    fn decrement_path(
        &mut self,
        k: usize,
        Ghost(end): Ghost<int>,
        i: usize,
        Ghost(points0): Ghost<Seq<Option<RGB>>>,
    )
        requires
            wf_node(points0, old(self).nodes@, k as int, end),
            end <= old(self).nodes@.len(),
            old(self).nodes@[k as int].lo <= i < old(self).nodes@[k as int].hi,
            points0[i as int] is Some,
            old(self).points@ == points0.update(i as int, None),
        ensures
            final(self).points@ == old(self).points@,
            final(self).nodes@.len() == old(self).nodes@.len(),
            forall|m: int| 0 <= m < old(self).nodes@.len() && !(k <= m < end)
                ==> final(self).nodes@[m] == old(self).nodes@[m],
            final(self).nodes@[k as int].lo == old(self).nodes@[k as int].lo,
            final(self).nodes@[k as int].hi == old(self).nodes@[k as int].hi,
            wf_node(final(self).points@, final(self).nodes@, k as int, end),
        decreases end - k,
    {
        let nd = self.nodes[k];
        proof {
            lemma_live_count_member(points0, nd.lo as int, nd.hi as int, i as int);
        }
        self.nodes.set(
            k,
            Node { num_points: nd.num_points - 1, lo: nd.lo, hi: nd.hi, data: nd.data },
        );
        let ghost nodes_s = self.nodes@;
        proof {
            lemma_live_count_delete(points0, nd.lo as int, nd.hi as int, i as int);
        }
        match nd.data {
            NodeData::Leaf => {},
            NodeData::Internal { left, right, dimension, median_val } => {
                let mid = self.nodes[right].lo;
                proof {
                    assert(wf_node(points0, old(self).nodes@, k as int + 1, right as int));
                    assert(wf_node(points0, old(self).nodes@, right as int, end));
                    lemma_wf_nodes_agree(
                        points0,
                        old(self).nodes@,
                        nodes_s,
                        k as int + 1,
                        right as int,
                    );
                    lemma_wf_nodes_agree(points0, old(self).nodes@, nodes_s, right as int, end);
                }
                if i < mid {
                    self.decrement_path(left, Ghost(right as int), i, Ghost(points0));
                    proof {
                        // the right subtree was not touched, and slot `i`
                        // lies outside its point range
                        lemma_wf_nodes_agree(
                            points0,
                            nodes_s,
                            self.nodes@,
                            right as int,
                            end,
                        );
                        lemma_wf_points_agree(
                            points0,
                            self.points@,
                            self.nodes@,
                            right as int,
                            end,
                        );
                    }
                } else {
                    self.decrement_path(right, Ghost(end), i, Ghost(points0));
                    proof {
                        lemma_wf_nodes_agree(
                            points0,
                            nodes_s,
                            self.nodes@,
                            k as int + 1,
                            right as int,
                        );
                        lemma_wf_points_agree(
                            points0,
                            self.points@,
                            self.nodes@,
                            k as int + 1,
                            right as int,
                        );
                    }
                }
            },
        }
    }

    /// A read-only probe: the closest still-available color to `target`,
    /// relaxed by the factor `1 + eps_num / eps_den`. With `eps_num == 0`
    /// the result is the exact nearest live color; the index itself never
    /// changes. `None` comes back exactly when the index is exhausted.
    pub fn get_closest(&self, target: &RGB, eps_num: u32, eps_den: u32) -> (r: SearchResult)
        requires
            self.wf(),
            eps_den >= 1,
        ensures
            r.res == self.probe(*target, eps_num as int, eps_den as int),
            match r.res {
                None => self.live().len() == 0,
                Some(c) => {
                    &&& self.live().count(c) > 0
                    &&& forall|p: RGB| self.live().count(p) > 0
                        ==> spec_dist2(c, *target) * ((eps_den as int) * (eps_den as int))
                            <= ((eps_num as int + eps_den as int) * (eps_num as int
                            + eps_den as int)) * spec_dist2(p, *target)
                    &&& (eps_num == 0 ==> forall|p: RGB| self.live().count(p) > 0
                        ==> spec_dist2(c, *target) <= spec_dist2(p, *target))
                },
            },
    {
        let mut stats = PerformanceStats::new();
        let nlen = self.nodes.len();
        let res = self.get_closest_node(target, 0, Ghost(nlen as int), eps_num, eps_den,
            &mut stats);
        match res {
            None => {
                proof {
                    lemma_live_count_is_mset_len(self.points@);
                }
                SearchResult { res: None, stats }
            },
            Some(b) => {
                match self.points[b.0] {
                    Some(c) => {
                        proof {
                            lemma_live_mset_member(self.points@, b.0 as int, c);
                            assert forall|p: RGB| self.live().count(p) > 0 implies
                                spec_dist2(c, *target) * ((eps_den as int) * (
                            eps_den as int)) <= ((eps_num as int + eps_den as int) * (
                            eps_num as int + eps_den as int)) * spec_dist2(p, *target) by {
                                lemma_live_mset_exists(self.points@, p);
                                let j = choose|j: int| 0 <= j < self.points@.len()
                                    && self.points@[j] == Some(p);
                                assert(self.points@[j] is Some);
                            }
                            if eps_num == 0 {
                                assert forall|p: RGB| self.live().count(p) > 0 implies
                                    spec_dist2(c, *target) <= spec_dist2(p, *target) by {
                                    lemma_cancel_ed(
                                        spec_dist2(c, *target),
                                        spec_dist2(p, *target),
                                        eps_den as int,
                                    );
                                }
                            }
                        }
                        SearchResult { res: Some(c), stats }
                    },
                    None => SearchResult { res: None, stats },
                }
            },
        }
    }

    /// Like [`Self::get_closest`], but also consumes the returned color:
    /// its slot is soft-deleted and every count on the path to it drops
    /// by one, so no color is ever handed out twice more often than it
    /// was put in.
    pub fn pop_closest(&mut self, target: &RGB, eps_num: u32, eps_den: u32) -> (r: SearchResult)
        requires
            old(self).wf(),
            eps_den >= 1,
        ensures
            final(self).wf(),
            r.res == old(self).probe(*target, eps_num as int, eps_den as int),
            match r.res {
                None => old(self).live().len() == 0 && final(self).live() == old(self).live(),
                Some(c) => {
                    &&& old(self).live().count(c) > 0
                    &&& final(self).live() == old(self).live().remove(c)
                    &&& final(self).live().len() == old(self).live().len() - 1
                    &&& forall|p: RGB| old(self).live().count(p) > 0
                        ==> spec_dist2(c, *target) * ((eps_den as int) * (eps_den as int))
                            <= ((eps_num as int + eps_den as int) * (eps_num as int
                            + eps_den as int)) * spec_dist2(p, *target)
                    &&& (eps_num == 0 ==> forall|p: RGB| old(self).live().count(p) > 0
                        ==> spec_dist2(c, *target) <= spec_dist2(p, *target))
                },
            },
    {
        broadcast use vstd::multiset::group_multiset_axioms;

        let mut stats = PerformanceStats::new();
        let nlen = self.nodes.len();
        let res = self.get_closest_node(target, 0, Ghost(nlen as int), eps_num, eps_den,
            &mut stats);
        match res {
            None => {
                proof {
                    lemma_live_count_is_mset_len(self.points@);
                }
                SearchResult { res: None, stats }
            },
            Some(b) => {
                let i = b.0;
                match self.points[i] {
                    Some(c) => {
                        let ghost points0 = self.points@;
                        let ghost tree0 = *self;
                        self.points.set(i, None);
                        self.decrement_path(0, Ghost(nlen as int), i, Ghost(points0));
                        proof {
                            lemma_live_mset_member(points0, i as int, c);
                            lemma_live_mset_delete(points0, i as int, c);
                            assert(tree0.live().remove(c).insert(c) =~= tree0.live());
                            assert forall|p: RGB| tree0.live().count(p) > 0 implies
                                spec_dist2(c, *target) * ((eps_den as int) * (
                            eps_den as int)) <= ((eps_num as int + eps_den as int) * (
                            eps_num as int + eps_den as int)) * spec_dist2(p, *target) by {
                                lemma_live_mset_exists(points0, p);
                                let j = choose|j: int| 0 <= j < points0.len()
                                    && points0[j] == Some(p);
                                assert(points0[j] is Some);
                            }
                            if eps_num == 0 {
                                assert forall|p: RGB| tree0.live().count(p) > 0 implies
                                    spec_dist2(c, *target) <= spec_dist2(p, *target) by {
                                    lemma_cancel_ed(
                                        spec_dist2(c, *target),
                                        spec_dist2(p, *target),
                                        eps_den as int,
                                    );
                                }
                            }
                        }
                        SearchResult { res: Some(c), stats }
                    },
                    None => SearchResult { res: None, stats },
                }
            },
        }
    }
}

/// One successful pop: the result was available before, and exactly one
/// occurrence of it is gone afterwards.
pub open spec fn pop_step(before: Multiset<RGB>, after: Multiset<RGB>, c: RGB) -> bool {
    &&& before.count(c) > 0
    &&& after == before.remove(c)
}

/// Along a chain of pops, the count of any color never grows.
proof fn lemma_pop_count_mono(
    states: Seq<Multiset<RGB>>,
    results: Seq<RGB>,
    t1: int,
    t2: int,
    c: RGB,
)
    requires
        states.len() == results.len() + 1,
        forall|t: int| 0 <= t < results.len()
            ==> pop_step(states[t], states[t + 1], #[trigger] results[t]),
        0 <= t1 <= t2 < states.len(),
    ensures
        states[t2].count(c) <= states[t1].count(c),
    decreases t2 - t1,
{
    broadcast use vstd::multiset::group_multiset_axioms;

    if t1 < t2 {
        lemma_pop_count_mono(states, results, t1, t2 - 1, c);
        assert(pop_step(states[t2 - 1], states[t2], results[t2 - 1]));
    }
}

/// Each pop shrinks the palette by exactly one point.
proof fn lemma_pop_len(states: Seq<Multiset<RGB>>, results: Seq<RGB>, t: int)
    requires
        states.len() == results.len() + 1,
        forall|t: int| 0 <= t < results.len()
            ==> pop_step(states[t], states[t + 1], #[trigger] results[t]),
        0 <= t < states.len(),
    ensures
        states[t].len() == states[0].len() - t,
    decreases t,
{
    broadcast use vstd::multiset::group_multiset_axioms;

    if t > 0 {
        lemma_pop_len(states, results, t - 1);
        let b = states[t - 1];
        let c = results[t - 1];
        assert(pop_step(states[t - 1], states[t], c));
        assert(b.remove(c).insert(c) =~= b);
    }
}

/// No-repeat popping: from a palette without duplicate colors, a chain of
/// successful pops returns pairwise distinct colors, every one of them
/// present in the starting palette, and leaves exactly `len` fewer points.
///
/// Here `states` are the live multisets before and after each pop and
/// `results` the returned colors, as [`KDTree::pop_closest`] describes
/// them.
pub proof fn lemma_no_repeat_popping(states: Seq<Multiset<RGB>>, results: Seq<RGB>)
    requires
        states.len() == results.len() + 1,
        forall|t: int| 0 <= t < results.len()
            ==> pop_step(states[t], states[t + 1], #[trigger] results[t]),
        forall|c: RGB| #[trigger] states[0].count(c) <= 1,
    ensures
        forall|t1: int, t2: int| 0 <= t1 < t2 < results.len()
            ==> results[t1] != results[t2],
        forall|t: int| 0 <= t < results.len()
            ==> states[0].count(#[trigger] results[t]) > 0,
        states.last().len() == states[0].len() - results.len(),
{
    broadcast use vstd::multiset::group_multiset_axioms;

    assert forall|t: int| 0 <= t < results.len() implies
        states[0].count(#[trigger] results[t]) > 0 by {
        lemma_pop_count_mono(states, results, 0, t, results[t]);
        assert(pop_step(states[t], states[t + 1], results[t]));
    }
    assert forall|t1: int, t2: int| 0 <= t1 < t2 < results.len() implies
        results[t1] != results[t2] by {
        if results[t1] == results[t2] {
            let c = results[t1];
            assert(pop_step(states[t1], states[t1 + 1], c));
            lemma_pop_count_mono(states, results, 0, t1, c);
            assert(states[t1 + 1].count(c) == 0);
            lemma_pop_count_mono(states, results, t1 + 1, t2, c);
            assert(pop_step(states[t2], states[t2 + 1], c));
        }
    }
    lemma_pop_len(states, results, states.len() - 1);
}

/// A squared distance no larger than another stays within the relaxed
/// bound once both sides are scaled by the relaxation fractions.
proof fn lemma_relax_weaken(d: int, x: int, ed: int, relax: int)
    by (nonlinear_arith)
    requires
        0 <= d <= x,
        1 <= ed <= relax,
    ensures
        d * (ed * ed) <= (relax * relax) * x,
{
}

/// Scaling two ordered distances by the same square keeps their order.
proof fn lemma_bound_mono(d1: int, d2: int, ed: int)
    by (nonlinear_arith)
    requires
        0 <= d1 <= d2,
        0 <= ed,
    ensures
        d1 * (ed * ed) <= d2 * (ed * ed),
{
}

/// At a zero relaxation the scaled bound collapses to a plain comparison.
proof fn lemma_cancel_ed(d: int, x: int, ed: int)
    by (nonlinear_arith)
    requires
        ed >= 1,
        0 <= d,
        d * (ed * ed) <= (ed * ed) * x,
    ensures
        d <= x,
{
}

/// The products compared by the pruning test fit comfortably in `u128`.
proof fn lemma_u128_prune_products(relax2: int, ed2: int, dd: int)
    by (nonlinear_arith)
    requires
        0 <= relax2 < 0x1_0000_0000_0000_0000_0000,
        0 <= ed2 < 0x1_0000_0000_0000_0000_0000,
        0 <= dd <= 65025,
    ensures
        forall|d1: int| 0 <= d1 <= 195075
            ==> 0 <= #[trigger] (d1 * ed2) < 0x1_0000_0000_0000_0000_0000_0000_0000,
        0 <= dd * relax2 < 0x1_0000_0000_0000_0000_0000_0000_0000,
{
}

/// Soundness of the pruning step: when the best distance found on the
/// near side beats the relaxed squared distance to the splitting plane,
/// every live point of the far side is within the relaxed bound of it.
proof fn lemma_prune_sound(
    tree: KDTree,
    k: int,
    target: RGB,
    d1: int,
    diff: int,
    ed: int,
    relax: int,
    went_left: bool,
)
    requires
        0 <= k < tree.nodes@.len(),
        tree.nodes@[k].data matches NodeData::Internal { left, right, dimension, median_val }
            && {
            let mid = tree.nodes@[k + 1].hi as int;
            &&& 0 <= tree.nodes@[k].lo <= mid <= tree.nodes@[k].hi <= tree.points@.len()
            &&& dimension < 3
            &&& diff == channel_val(target, dimension as int) - median_val
            &&& (went_left ==> forall|p: int| mid <= p < tree.nodes@[k].hi
                ==> ((#[trigger] tree.points@[p]) matches Some(c)
                    ==> channel_val(c, dimension as int) >= median_val))
            &&& (!went_left ==> forall|p: int| tree.nodes@[k].lo <= p < mid
                ==> ((#[trigger] tree.points@[p]) matches Some(c)
                    ==> channel_val(c, dimension as int) <= median_val))
            &&& (went_left ==> diff < 0)
            &&& (!went_left ==> diff >= 0)
        },
        1 <= ed <= relax,
        0 <= d1,
        d1 * (ed * ed) < (diff * diff) * (relax * relax),
    ensures
        tree.nodes@[k].data matches NodeData::Internal { left, right, dimension, median_val }
            ==> {
            let mid = tree.nodes@[k + 1].hi as int;
            let far_lo = if went_left { mid } else { tree.nodes@[k].lo as int };
            let far_hi = if went_left { tree.nodes@[k].hi as int } else { mid };
            forall|m: int| far_lo <= m < far_hi && (#[trigger] tree.points@[m]) is Some
                ==> d1 * (ed * ed) <= (relax * relax) * spec_dist2(tree.points@[m]->0, target)
        },
{
    match tree.nodes@[k].data {
        NodeData::Internal { left, right, dimension, median_val } => {
            let mid = tree.nodes@[k + 1].hi as int;
            let far_lo = if went_left { mid } else { tree.nodes@[k].lo as int };
            let far_hi = if went_left { tree.nodes@[k].hi as int } else { mid };
            assert forall|m: int| far_lo <= m < far_hi && (#[trigger] tree.points@[m]) is Some
                implies d1 * (ed * ed) <= (relax * relax) * spec_dist2(
                tree.points@[m]->0,
                target,
            ) by {
                let c = tree.points@[m]->0;
                let cv = channel_val(c, dimension as int);
                let tvv = channel_val(target, dimension as int);
                crate::color::lemma_dist2_dominates_channel(c, target, dimension as int);
                assert(diff * diff <= (cv - tvv) * (cv - tvv)) by (nonlinear_arith)
                    requires
                        (went_left && diff < 0 && cv - tvv >= -diff) || (!went_left && diff
                            >= 0 && tvv - cv >= diff),
                ;
                assert((diff * diff) * (relax * relax) <= (relax * relax) * spec_dist2(
                    c,
                    target,
                )) by (nonlinear_arith)
                    requires
                        0 <= relax,
                        diff * diff <= spec_dist2(c, target),
                ;
            }
        },
        NodeData::Leaf => {},
    }
}

} // verus!
