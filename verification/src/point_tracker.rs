//! The growth frontier over a topology: which cells may be picked next.
//!
//! A cell is *visited* once it has been reached, filled, or excluded; the
//! frontier holds the visited-but-not-yet-filled cells. Every operation
//! keeps one invariant: a cell appears in the frontier at most once, and
//! the position map agrees with the frontier list in both directions.

use vstd::prelude::*;

use crate::rng::RngSource;
use crate::topology::{PixelLoc, Topology};

verus! {

/// How many of the first `n` entries of `s` are `false`.
pub open spec fn count_false(s: Seq<bool>, n: int) -> int
    decreases n,
{
    if n <= 0 {
        0
    } else {
        count_false(s, n - 1) + if s[n - 1] {
            0int
        } else {
            1int
        }
    }
}

proof fn lemma_count_false_nonneg(s: Seq<bool>, n: int)
    ensures
        0 <= count_false(s, n) <= vstd::math::max(n, 0),
    decreases n,
{
    if n > 0 {
        lemma_count_false_nonneg(s, n - 1);
    }
}

/// Flipping one entry changes the count of `false` entries by one or not
/// at all, according to the old and new values there.
proof fn lemma_count_false_update(s: Seq<bool>, n: int, k: int, v: bool)
    requires
        0 <= k < s.len(),
        n <= s.len(),
    ensures
        count_false(s.update(k, v), n) == count_false(s, n) + if k < n {
            (if s[k] { 0int } else { -1int }) + (if v { 0int } else { 1int })
        } else {
            0int
        },
    decreases n,
{
    if n > 0 {
        lemma_count_false_update(s, n - 1, k, v);
    }
}

/// The count of `false` entries among the first `n` only depends on the
/// first `n` entries.
proof fn lemma_count_false_prefix(s1: Seq<bool>, s2: Seq<bool>, n: int)
    requires
        forall|m: int| 0 <= m < n ==> s1[m] == s2[m],
    ensures
        count_false(s1, n) == count_false(s2, n),
    decreases n,
{
    if n > 0 {
        lemma_count_false_prefix(s1, s2, n - 1);
    }
}

pub struct PointTracker {
    frontier: Vec<PixelLoc>,
    frontier_map: Vec<Option<usize>>,
    used: Vec<bool>,
    topology: Topology,
}

impl PointTracker {
    /// The topology this tracker was built over.
    pub closed spec fn topo(self) -> Topology {
        self.topology
    }

    /// The current frontier, in storage order.
    pub closed spec fn frontier_seq(self) -> Seq<PixelLoc> {
        self.frontier@
    }

    /// Whether `loc` currently sits in the frontier.
    pub closed spec fn in_frontier(self, loc: PixelLoc) -> bool {
        &&& self.topology.spec_valid(loc)
        &&& self.frontier_map@[self.topology.spec_index_of(loc)] is Some
    }

    /// Whether `loc` has been visited: reached, filled, or excluded.
    pub closed spec fn is_used(self, loc: PixelLoc) -> bool {
        &&& self.topology.spec_valid(loc)
        &&& self.used@[self.topology.spec_index_of(loc)]
    }

    /// The visited bit of every flat index.
    pub closed spec fn used_bits(self) -> Seq<bool> {
        self.used@
    }

    /// How many cells have not been visited yet.
    pub closed spec fn unused_count(self) -> int {
        count_false(self.used@, self.used@.len() as int)
    }

    /// The tracker's invariant: the frontier list, the position map and
    /// the visited bits agree. In particular no location can appear in
    /// the frontier twice.
    pub closed spec fn wf(self) -> bool {
        &&& self.topology.well_formed()
        &&& self.used@.len() == self.topology.spec_len()
        &&& self.frontier_map@.len() == self.topology.spec_len()
        &&& forall|p: int| 0 <= p < self.frontier@.len() ==> {
            &&& p <= usize::MAX
            &&& self.topology.spec_valid(#[trigger] self.frontier@[p])
            &&& 0 <= self.topology.spec_index_of(self.frontier@[p]) < self.topology.spec_len()
            &&& self.frontier_map@[self.topology.spec_index_of(self.frontier@[p])]
                == Some(p as usize)
            &&& self.used@[self.topology.spec_index_of(self.frontier@[p])]
        }
        &&& forall|k: int| 0 <= k < self.frontier_map@.len()
            ==> ((#[trigger] self.frontier_map@[k]) matches Some(p) ==> {
                &&& (p as int) < self.frontier@.len()
                &&& self.topology.spec_index_of(self.frontier@[p as int]) == k
            })
    }

    /// A fresh tracker: nothing visited, empty frontier.
    pub fn new(topology: Topology) -> (r: PointTracker)
        requires
            topology.well_formed(),
        ensures
            r.wf(),
            r.topo() == topology,
            r.frontier_seq() =~= Seq::<PixelLoc>::empty(),
            forall|loc: PixelLoc| !(#[trigger] r.is_used(loc)),
            r.unused_count() == topology.spec_len(),
    {
        let n = topology.len();
        let mut used: Vec<bool> = Vec::new();
        let mut frontier_map: Vec<Option<usize>> = Vec::new();
        let mut k: usize = 0;
        while k < n
            invariant
                k <= n,
                used@.len() == k,
                frontier_map@.len() == k,
                forall|m: int| 0 <= m < k ==> !(#[trigger] used@[m]),
                forall|m: int| 0 <= m < k ==> (#[trigger] frontier_map@[m]) is None,
                count_false(used@, k as int) == k,
            decreases n - k,
        {
            let ghost used_before = used@;
            used.push(false);
            frontier_map.push(None);
            proof {
                lemma_count_false_prefix(used_before, used@, k as int);
            }
            k = k + 1;
        }
        let r = PointTracker { frontier: Vec::new(), frontier_map, used, topology };
        proof {
            assert forall|loc: PixelLoc| !(#[trigger] r.is_used(loc)) by {
                if r.topology.spec_valid(loc) {
                    crate::topology::lemma_topology_index_in_range(r.topology, loc);
                }
            }
        }
        r
    }

    /// Appends `loc` (with flat index `index`) to the frontier and marks
    /// it visited, unless it was visited already.
    fn push_frontier(&mut self, index: usize, loc: PixelLoc)
        requires
            old(self).wf(),
            old(self).topo().spec_valid(loc),
            old(self).topo().spec_index_of(loc) == index,
        ensures
            final(self).wf(),
            final(self).topo() == old(self).topo(),
            if old(self).is_used(loc) {
                *final(self) == *old(self)
            } else {
                &&& final(self).frontier_seq() == old(self).frontier_seq().push(loc)
                &&& final(self).in_frontier(loc)
                &&& final(self).is_used(loc)
                &&& final(self).unused_count() == old(self).unused_count() - 1
            },
            forall|m: PixelLoc| m != loc
                ==> #[trigger] final(self).in_frontier(m) == old(self).in_frontier(m),
            forall|m: PixelLoc| m != loc
                ==> #[trigger] final(self).is_used(m) == old(self).is_used(m),
            forall|m: PixelLoc| old(self).in_frontier(m) ==> final(self).in_frontier(m),
            forall|m: PixelLoc| old(self).is_used(m) ==> final(self).is_used(m),
            final(self).unused_count() + final(self).frontier_seq().len()
                == old(self).unused_count() + old(self).frontier_seq().len(),
            final(self).used_bits() == if old(self).is_used(loc) {
                old(self).used_bits()
            } else {
                old(self).used_bits().update(index as int, true)
            },
    {
        proof {
            crate::topology::lemma_topology_index_in_range(self.topology, loc);
        }
        if !self.used[index] {
            let pos = self.frontier.len();
            self.frontier_map.set(index, Some(pos));
            self.frontier.push(loc);
            self.used.set(index, true);
            proof {
                lemma_count_false_update(
                    old(self).used@,
                    old(self).used@.len() as int,
                    index as int,
                    true,
                );
                assert forall|m: PixelLoc| m != loc implies
                    #[trigger] self.in_frontier(m) == old(self).in_frontier(m) by {
                    if self.topology.spec_valid(m) {
                        crate::topology::lemma_topology_index_in_range(self.topology, m);
                        if self.topology.spec_index_of(m) == index as int {
                            crate::topology::lemma_topology_index_injective(
                                self.topology,
                                m,
                                loc,
                            );
                        }
                    }
                }
                assert forall|m: PixelLoc| m != loc implies
                    #[trigger] self.is_used(m) == old(self).is_used(m) by {
                    if self.topology.spec_valid(m) {
                        crate::topology::lemma_topology_index_in_range(self.topology, m);
                        if self.topology.spec_index_of(m) == index as int {
                            crate::topology::lemma_topology_index_injective(
                                self.topology,
                                m,
                                loc,
                            );
                        }
                    }
                }
                assert forall|p: int| 0 <= p < self.frontier@.len() implies {
                    &&& self.topology.spec_valid(#[trigger] self.frontier@[p])
                    &&& self.frontier_map@[self.topology.spec_index_of(self.frontier@[p])]
                        == Some(p as usize)
                    &&& self.used@[self.topology.spec_index_of(self.frontier@[p])]
                } by {
                    if p < self.frontier@.len() - 1 {
                        let floc = self.frontier@[p];
                        crate::topology::lemma_topology_index_in_range(self.topology, floc);
                        if self.topology.spec_index_of(floc) == index as int {
                            crate::topology::lemma_topology_index_injective(
                                self.topology,
                                floc,
                                loc,
                            );
                        }
                    }
                }
            }
        }
    }

    /// Marks `loc` visited and adds it to the frontier, unless it is
    /// invalid or was visited already; then nothing changes.
    pub fn add_to_frontier(&mut self, loc: PixelLoc)
        requires
            old(self).wf(),
        ensures
            final(self).wf(),
            final(self).topo() == old(self).topo(),
            if old(self).topo().spec_valid(loc) && !old(self).is_used(loc) {
                &&& final(self).frontier_seq() == old(self).frontier_seq().push(loc)
                &&& final(self).in_frontier(loc)
                &&& final(self).is_used(loc)
                &&& final(self).unused_count() == old(self).unused_count() - 1
            } else {
                *final(self) == *old(self)
            },
            forall|m: PixelLoc| m != loc
                ==> #[trigger] final(self).in_frontier(m) == old(self).in_frontier(m),
            forall|m: PixelLoc| m != loc
                ==> #[trigger] final(self).is_used(m) == old(self).is_used(m),
            forall|m: PixelLoc| old(self).in_frontier(m) ==> final(self).in_frontier(m),
            forall|m: PixelLoc| old(self).is_used(m) ==> final(self).is_used(m),
            final(self).unused_count() + final(self).frontier_seq().len()
                == old(self).unused_count() + old(self).frontier_seq().len(),
    {
        let index = self.topology.get_index(loc);
        if let Some(index) = index {
            self.push_frontier(index, loc);
        }
    }

    /// Sets the visited bit of `loc` without touching the frontier.
    pub fn mark_as_used(&mut self, loc: PixelLoc)
        requires
            old(self).wf(),
        ensures
            final(self).wf(),
            final(self).topo() == old(self).topo(),
            final(self).frontier_seq() == old(self).frontier_seq(),
            old(self).topo().spec_valid(loc) ==> final(self).is_used(loc),
            !old(self).topo().spec_valid(loc) ==> *final(self) == *old(self),
            forall|m: PixelLoc| m != loc
                ==> #[trigger] final(self).is_used(m) == old(self).is_used(m),
            forall|m: PixelLoc| #[trigger] final(self).in_frontier(m)
                == old(self).in_frontier(m),
            forall|m: PixelLoc| old(self).is_used(m) ==> final(self).is_used(m),
            final(self).unused_count() == old(self).unused_count() - (
                if old(self).topo().spec_valid(loc) && !old(self).is_used(loc) {
                    1int
                } else {
                    0int
                }
            ),
    {
        let index = self.topology.get_index(loc);
        if let Some(index) = index {
            proof {
                crate::topology::lemma_topology_index_in_range(self.topology, loc);
            }
            let was = self.used[index];
            self.used.set(index, true);
            proof {
                lemma_count_false_update(
                    old(self).used@,
                    old(self).used@.len() as int,
                    index as int,
                    true,
                );
                assert forall|m: PixelLoc| m != loc implies
                    #[trigger] self.is_used(m) == old(self).is_used(m) by {
                    if self.topology.spec_valid(m) {
                        crate::topology::lemma_topology_index_in_range(self.topology, m);
                        if self.topology.spec_index_of(m) == index as int {
                            crate::topology::lemma_topology_index_injective(
                                self.topology,
                                m,
                                loc,
                            );
                        }
                    }
                }
            }
        }
    }

    /// Clears the visited bit of `loc`. Only meaningful while regions are
    /// being seeded, before any growth: `loc` must not be in the frontier.
    pub fn mark_as_unused(&mut self, loc: PixelLoc)
        requires
            old(self).wf(),
            !old(self).in_frontier(loc),
        ensures
            final(self).wf(),
            final(self).topo() == old(self).topo(),
            final(self).frontier_seq() == old(self).frontier_seq(),
            old(self).topo().spec_valid(loc) ==> !final(self).is_used(loc),
            !old(self).topo().spec_valid(loc) ==> *final(self) == *old(self),
            forall|m: PixelLoc| m != loc
                ==> #[trigger] final(self).is_used(m) == old(self).is_used(m),
            forall|m: PixelLoc| #[trigger] final(self).in_frontier(m)
                == old(self).in_frontier(m),
            final(self).unused_count() == old(self).unused_count() + (
                if old(self).is_used(loc) {
                    1int
                } else {
                    0int
                }
            ),
    {
        let index = self.topology.get_index(loc);
        if let Some(index) = index {
            proof {
                crate::topology::lemma_topology_index_in_range(self.topology, loc);
            }
            self.used.set(index, false);
            proof {
                lemma_count_false_update(
                    old(self).used@,
                    old(self).used@.len() as int,
                    index as int,
                    false,
                );
                assert forall|m: PixelLoc| m != loc implies
                    #[trigger] self.is_used(m) == old(self).is_used(m) by {
                    if self.topology.spec_valid(m) {
                        crate::topology::lemma_topology_index_in_range(self.topology, m);
                        if self.topology.spec_index_of(m) == index as int {
                            crate::topology::lemma_topology_index_injective(
                                self.topology,
                                m,
                                loc,
                            );
                        }
                    }
                }
                assert forall|p: int| 0 <= p < self.frontier@.len() implies {
                    &&& self.topology.spec_valid(#[trigger] self.frontier@[p])
                    &&& self.frontier_map@[self.topology.spec_index_of(self.frontier@[p])]
                        == Some(p as usize)
                    &&& self.used@[self.topology.spec_index_of(self.frontier@[p])]
                } by {
                    let floc = self.frontier@[p];
                    crate::topology::lemma_topology_index_in_range(self.topology, floc);
                    if self.topology.spec_index_of(floc) == index as int {
                        crate::topology::lemma_topology_index_injective(
                            self.topology,
                            floc,
                            loc,
                        );
                        assert(old(self).in_frontier(loc));
                    }
                }
            }
        }
    }

    /// Marks every cell of the canvas visited.
    pub fn mark_all_as_used(&mut self)
        requires
            old(self).wf(),
        ensures
            final(self).wf(),
            final(self).topo() == old(self).topo(),
            final(self).frontier_seq() == old(self).frontier_seq(),
            forall|m: PixelLoc| old(self).topo().spec_valid(m)
                ==> #[trigger] final(self).is_used(m),
            forall|m: PixelLoc| #[trigger] final(self).in_frontier(m)
                == old(self).in_frontier(m),
            final(self).unused_count() == 0,
    {
        let n = self.used.len();
        let mut k: usize = 0;
        while k < n
            invariant
                k <= n,
                n == self.used@.len(),
                self.topology == old(self).topology,
                self.frontier == old(self).frontier,
                self.frontier_map == old(self).frontier_map,
                self.used@.len() == old(self).used@.len(),
                forall|m: int| 0 <= m < k ==> (#[trigger] self.used@[m]),
                forall|m: int| k <= m < n ==> #[trigger] self.used@[m] == old(self).used@[m],
            decreases n - k,
        {
            self.used.set(k, true);
            k = k + 1;
        }
        proof {
            lemma_count_all_true(self.used@, self.used@.len() as int);
            assert forall|m: PixelLoc| old(self).topo().spec_valid(m) implies
                #[trigger] self.is_used(m) by {
                crate::topology::lemma_topology_index_in_range(self.topology, m);
            }
        }
    }

    /// True once the frontier is empty and growth can go no further.
    pub fn is_done(&self) -> (r: bool)
        ensures
            r == (self.frontier_seq().len() == 0),
    {
        self.frontier.len() == 0
    }

    pub fn frontier_size(&self) -> (r: usize)
        ensures
            r == self.frontier_seq().len(),
    {
        self.frontier.len()
    }

    /// The frontier entry at `index`.
    pub fn get_frontier_point(&self, index: usize) -> (r: PixelLoc)
        requires
            self.wf(),
            index < self.frontier_seq().len(),
        ensures
            r == self.frontier_seq()[index as int],
            self.in_frontier(r),
            self.topo().spec_valid(r),
    {
        self.frontier[index]
    }

    /// Removes `loc` from the frontier by swapping the last entry into its
    /// slot; its visited bit stays set.
    fn remove_from_frontier(&mut self, loc: PixelLoc)
        requires
            old(self).wf(),
        ensures
            final(self).wf(),
            final(self).topo() == old(self).topo(),
            !final(self).in_frontier(loc),
            forall|m: PixelLoc| m != loc
                ==> #[trigger] final(self).in_frontier(m) == old(self).in_frontier(m),
            forall|m: PixelLoc| #[trigger] final(self).is_used(m) == old(self).is_used(m),
            final(self).used_bits() == old(self).used_bits(),
            final(self).unused_count() == old(self).unused_count(),
            final(self).frontier_seq().len() == old(self).frontier_seq().len() - (
                if old(self).in_frontier(loc) {
                    1int
                } else {
                    0int
                }
            ),
    {
        let index = match self.topology.get_index(loc) {
            Some(i) => i,
            None => {
                return ;
            },
        };
        proof {
            crate::topology::lemma_topology_index_in_range(self.topology, loc);
        }
        match self.frontier_map[index] {
            None => {},
            Some(pos) => {
                proof {
                    crate::topology::lemma_topology_index_injective(
                        self.topology,
                        self.frontier@[pos as int],
                        loc,
                    );
                }
                let last_pos = self.frontier.len() - 1;
                let last = self.frontier[last_pos];
                let ghost fr0 = self.frontier@;
                let ghost map0 = self.frontier_map@;
                match self.topology.get_index(last) {
                    Some(last_index) => {
                        self.frontier_map.set(last_index, Some(pos));
                    },
                    None => {},
                }
                self.frontier.swap_remove(pos);
                self.frontier_map.set(index, None);
                proof {
                    let t = self.topology;
                    let li = t.spec_index_of(last);
                    let fr1 = self.frontier@;
                    assert(fr1 =~= fr0.update(pos as int, last).drop_last());
                    assert forall|m: PixelLoc| m != loc implies
                        #[trigger] self.in_frontier(m) == old(self).in_frontier(m) by {
                        if t.spec_valid(m) {
                            crate::topology::lemma_topology_index_in_range(t, m);
                            if t.spec_index_of(m) == index as int {
                                crate::topology::lemma_topology_index_injective(t, m, loc);
                            }
                            if m == last && pos != last_pos {
                                assert(self.frontier_map@[li] == Some(pos));
                            }
                            if t.spec_index_of(m) == li && m != last {
                                crate::topology::lemma_topology_index_injective(t, m, last);
                            }
                        }
                    }
                    assert forall|p: int| 0 <= p < fr1.len() implies {
                        &&& t.spec_valid(#[trigger] fr1[p])
                        &&& 0 <= t.spec_index_of(fr1[p]) < t.spec_len()
                        &&& self.frontier_map@[t.spec_index_of(fr1[p])] == Some(p as usize)
                        &&& self.used@[t.spec_index_of(fr1[p])]
                    } by {
                        if p == pos as int && pos != last_pos {
                            assert(fr1[p] == last);
                            if li == index as int {
                                crate::topology::lemma_topology_index_injective(t, last, loc);
                            }
                        } else {
                            assert(fr1[p] == fr0[p]);
                            let k = t.spec_index_of(fr0[p]);
                            if k == index as int {
                                crate::topology::lemma_topology_index_injective(
                                    t,
                                    fr0[p],
                                    loc,
                                );
                            }
                            if k == li && fr0[p] != last {
                                crate::topology::lemma_topology_index_injective(
                                    t,
                                    fr0[p],
                                    last,
                                );
                            }
                        }
                    }
                    assert forall|k: int| 0 <= k < self.frontier_map@.len() implies
                        ((#[trigger] self.frontier_map@[k]) matches Some(p) ==> {
                            &&& (p as int) < fr1.len()
                            &&& t.spec_index_of(fr1[p as int]) == k
                        }) by {
                        match self.frontier_map@[k] {
                            Some(p) => {
                                if k == li && li != index as int {
                                    assert(p == pos);
                                    if pos == last_pos {
                                        crate::topology::lemma_topology_index_injective(
                                            t,
                                            last,
                                            loc,
                                        );
                                    }
                                } else {
                                    assert(map0[k] == Some(p));
                                    assert(t.spec_index_of(fr0[p as int]) == k);
                                    if p as int == last_pos as int {
                                        assert(k == li);
                                    }
                                    if p as int == pos as int {
                                        assert(k == index as int);
                                    }
                                }
                            },
                            None => {},
                        }
                    }
                }
            },
        }
    }

    /// Adds every not-yet-visited neighbor of `loc` to the frontier, then
    /// removes `loc` itself from the frontier. Its visited bit stays set:
    /// `loc` counts as filled from the tracker's point of view.
    #[verifier::rlimit(100)]
    #[verifier::spinoff_prover]
    pub fn fill(&mut self, loc: PixelLoc)
        requires
            old(self).wf(),
        ensures
            final(self).wf(),
            final(self).topo() == old(self).topo(),
            !final(self).in_frontier(loc),
            old(self).topo().spec_valid(loc) ==> final(self).is_used(loc),
            forall|n: PixelLoc| old(self).topo().spec_adjacent(loc).contains(n) && n != loc
                && old(self).topo().spec_valid(n) && !old(self).is_used(n)
                ==> #[trigger] final(self).in_frontier(n),
            forall|m: PixelLoc| m != loc && old(self).in_frontier(m)
                ==> #[trigger] final(self).in_frontier(m),
            forall|m: PixelLoc| old(self).is_used(m) ==> #[trigger] final(self).is_used(m),
            forall|m: PixelLoc| #[trigger] final(self).in_frontier(m)
                ==> old(self).in_frontier(m) || old(self).topo().spec_adjacent(loc).contains(m),
            forall|m: PixelLoc| #[trigger] final(self).is_used(m)
                ==> old(self).is_used(m) || old(self).topo().spec_adjacent(loc).contains(m)
                    || m == loc,
            forall|m: PixelLoc| #[trigger] final(self).in_frontier(m) && !old(self).in_frontier(m)
                ==> !old(self).is_used(m),
            forall|m: PixelLoc| #[trigger] final(self).is_used(m) && !old(self).is_used(m)
                && m != loc ==> final(self).in_frontier(m),
            final(self).unused_count() + final(self).frontier_seq().len()
                <= old(self).unused_count() + old(self).frontier_seq().len(),
            old(self).in_frontier(loc)
                ==> final(self).unused_count() + final(self).frontier_seq().len()
                    == old(self).unused_count() + old(self).frontier_seq().len() - 1,
    {
        proof {
            if old(self).in_frontier(loc) {
                lemma_in_frontier_is_used(*old(self), loc);
            }
        }
        self.mark_as_used(loc);
        let ghost t1 = *self;
        let adj = self.topology.iter_adjacent(loc);
        let ghost t0 = *old(self);
        let ghost adjs = t0.topo().spec_adjacent(loc);
        let mut n: usize = 0;
        while n < adj.len()
            invariant
                self.wf(),
                self.topo() == t0.topo(),
                adj@ == adjs,
                n <= adj@.len(),
                t0.wf(),
                forall|p: int| 0 <= p < n
                    ==> (t0.topo().spec_valid(#[trigger] adj@[p]) && !t0.is_used(adj@[p])
                        && adj@[p] != loc ==> self.in_frontier(adj@[p])),
                t1.wf(),
                t1.topo() == t0.topo(),
                forall|m: PixelLoc| m != loc
                    ==> #[trigger] t1.is_used(m) == t0.is_used(m),
                forall|m: PixelLoc| t1.in_frontier(m) ==> #[trigger] self.in_frontier(m),
                forall|m: PixelLoc| t1.is_used(m) ==> #[trigger] self.is_used(m),
                forall|m: PixelLoc| #[trigger] self.in_frontier(m)
                    ==> t1.in_frontier(m) || adjs.contains(m),
                forall|m: PixelLoc| #[trigger] self.is_used(m)
                    ==> t1.is_used(m) || adjs.contains(m),
                forall|m: PixelLoc| #[trigger] self.in_frontier(m) && !t1.in_frontier(m)
                    ==> !t1.is_used(m),
                forall|m: PixelLoc| #[trigger] self.is_used(m) && !t1.is_used(m)
                    ==> self.in_frontier(m),
                self.unused_count() + self.frontier_seq().len()
                    == t1.unused_count() + t1.frontier_seq().len(),
            decreases adj@.len() - n,
        {
            let a = adj[n];
            proof {
                assert(adjs.contains(a));
            }
            match self.topology.get_index(a) {
                Some(k) => {
                    self.push_frontier(k, a);
                },
                None => {},
            }
            n = n + 1;
        }
        self.remove_from_frontier(loc);
    }

    /// Adds `min(num_random, unvisited)` distinct, uniformly drawn,
    /// not-yet-visited locations to the frontier.
    pub fn add_random_to_frontier(&mut self, num_random: usize, rng: &mut RngSource)
        requires
            old(self).wf(),
        ensures
            final(self).wf(),
            final(self).topo() == old(self).topo(),
            final(self).frontier_seq().len() == old(self).frontier_seq().len()
                + vstd::math::min(num_random as int, old(self).unused_count()),
            final(self).unused_count() == old(self).unused_count()
                - vstd::math::min(num_random as int, old(self).unused_count()),
            forall|m: PixelLoc| old(self).in_frontier(m) ==> #[trigger] final(self).in_frontier(m),
            forall|m: PixelLoc| old(self).is_used(m) ==> #[trigger] final(self).is_used(m),
            forall|m: PixelLoc| #[trigger] final(self).in_frontier(m) && !old(self).in_frontier(m)
                ==> !old(self).is_used(m),
            forall|m: PixelLoc| #[trigger] final(self).is_used(m) && !old(self).is_used(m)
                ==> final(self).in_frontier(m),
    {
        let ghost t0 = *old(self);
        let total = self.used.len();
        let mut unused_vec: Vec<usize> = Vec::new();
        let mut k: usize = 0;
        while k < total
            invariant
                k <= total,
                total == self.used@.len(),
                *self == t0,
                t0.wf(),
                unused_vec@.len() == count_false(self.used@, k as int),
                forall|p: int| 0 <= p < unused_vec@.len()
                    ==> (#[trigger] unused_vec@[p] as int) < k,
                forall|p: int| 0 <= p < unused_vec@.len()
                    ==> !self.used@[#[trigger] unused_vec@[p] as int],
                forall|p1: int, p2: int| 0 <= p1 < p2 < unused_vec@.len()
                    ==> (#[trigger] unused_vec@[p1]) < (#[trigger] unused_vec@[p2]),
            decreases total - k,
        {
            proof {
                lemma_count_false_nonneg(self.used@, k as int);
            }
            if !self.used[k] {
                unused_vec.push(k);
            }
            k = k + 1;
        }
        let m = unused_vec.len();
        proof {
            assert(m == t0.unused_count());
        }
        let take = if num_random < m {
            num_random
        } else {
            m
        };
        // Partial shuffle: the first `take` entries become a uniform draw
        // of `take` distinct unvisited indices.
        let mut k: usize = 0;
        while k < take
            invariant
                k <= take <= m,
                m == unused_vec@.len(),
                *self == t0,
                t0.wf(),
                total == self.used@.len(),
                forall|p: int| 0 <= p < m
                    ==> (#[trigger] unused_vec@[p] as int) < total,
                forall|p: int| 0 <= p < m
                    ==> !self.used@[#[trigger] unused_vec@[p] as int],
                forall|p1: int, p2: int| 0 <= p1 < p2 < m
                    ==> (#[trigger] unused_vec@[p1]) != (#[trigger] unused_vec@[p2]),
            decreases take - k,
        {
            let r = k + rng.gen_index(m - k);
            let ghost uv0 = unused_vec@;
            let a = unused_vec[k];
            let b = unused_vec[r];
            unused_vec.set(k, b);
            unused_vec.set(r, a);
            proof {
                assert forall|p1: int, p2: int| 0 <= p1 < p2 < m implies
                    (#[trigger] unused_vec@[p1]) != (#[trigger] unused_vec@[p2]) by {
                    let q1 = if p1 == k { r as int } else if p1 == r { k as int } else { p1 };
                    let q2 = if p2 == k { r as int } else if p2 == r { k as int } else { p2 };
                    assert(unused_vec@[p1] == uv0[q1]);
                    assert(unused_vec@[p2] == uv0[q2]);
                }
            }
            k = k + 1;
        }
        // Add the selected locations to the frontier.
        let mut k: usize = 0;
        while k < take
            invariant
                k <= take <= m,
                m == unused_vec@.len(),
                t0.wf(),
                self.wf(),
                self.topo() == t0.topo(),
                total == self.used@.len(),
                self.used@.len() == t0.used@.len(),
                m == t0.unused_count(),
                forall|p: int| 0 <= p < m
                    ==> (#[trigger] unused_vec@[p] as int) < total,
                forall|p1: int, p2: int| 0 <= p1 < p2 < m
                    ==> (#[trigger] unused_vec@[p1]) != (#[trigger] unused_vec@[p2]),
                forall|p: int| k <= p < m
                    ==> !self.used@[#[trigger] unused_vec@[p] as int],
                self.frontier_seq().len() == t0.frontier_seq().len() + k,
                self.unused_count() == t0.unused_count() - k,
                forall|mm: PixelLoc| t0.in_frontier(mm) ==> #[trigger] self.in_frontier(mm),
                forall|mm: PixelLoc| t0.is_used(mm) ==> #[trigger] self.is_used(mm),
                forall|mm: PixelLoc| #[trigger] self.in_frontier(mm) && !t0.in_frontier(mm)
                    ==> !t0.is_used(mm),
                forall|mm: PixelLoc| #[trigger] self.is_used(mm) && !t0.is_used(mm)
                    ==> self.in_frontier(mm),
            decreases take - k,
        {
            let idx = unused_vec[k];
            let ghost used_before = self.used@;
            match self.topology.get_loc(idx) {
                Some(loc) => {
                    proof {
                        assert(!self.used@[idx as int]);
                        assert(!self.is_used(loc));
                    }
                    self.push_frontier(idx, loc);
                    proof {
                        assert(self.used@ == used_before.update(idx as int, true));
                    }
                },
                None => {
                    proof {
                        assert(idx < t0.topo().spec_len());
                        assert(false);
                    }
                },
            }
            k = k + 1;
        }
    }
}

/// The count of unvisited cells is never negative and never exceeds the
/// size of the canvas.
pub proof fn lemma_unused_count_bounds(pt: PointTracker)
    requires
        pt.wf(),
    ensures
        0 <= pt.unused_count() <= pt.topo().spec_len(),
{
    lemma_count_false_nonneg(pt.used@, pt.used@.len() as int);
}

/// With an empty frontier list, no location is in the frontier.
pub proof fn lemma_empty_frontier(pt: PointTracker)
    requires
        pt.wf(),
        pt.frontier_seq().len() == 0,
    ensures
        forall|m: PixelLoc| !(#[trigger] pt.in_frontier(m)),
{
    assert forall|m: PixelLoc| !(#[trigger] pt.in_frontier(m)) by {
        if pt.in_frontier(m) {
            crate::topology::lemma_topology_index_in_range(pt.topology, m);
            assert(pt.frontier_map@[pt.topology.spec_index_of(m)] is Some);
        }
    }
}

/// A cell in the frontier is always valid on the tracker's topology.
pub proof fn lemma_in_frontier_valid(pt: PointTracker, loc: PixelLoc)
    requires
        pt.in_frontier(loc),
    ensures
        pt.topo().spec_valid(loc),
{
}

/// A cell in the frontier always has its visited bit set.
pub proof fn lemma_in_frontier_is_used(pt: PointTracker, loc: PixelLoc)
    requires
        pt.wf(),
        pt.in_frontier(loc),
    ensures
        pt.is_used(loc),
{
    let k = pt.topology.spec_index_of(loc);
    crate::topology::lemma_topology_index_in_range(pt.topology, loc);
    match pt.frontier_map@[k] {
        Some(p) => {
            crate::topology::lemma_topology_index_injective(
                pt.topology,
                pt.frontier@[p as int],
                loc,
            );
        },
        None => {},
    }
}

/// No location ever appears at two different positions of the frontier.
pub proof fn lemma_frontier_distinct(pt: PointTracker, p1: int, p2: int)
    requires
        pt.wf(),
        0 <= p1 < p2 < pt.frontier_seq().len(),
    ensures
        pt.frontier_seq()[p1] != pt.frontier_seq()[p2],
{
    if pt.frontier_seq()[p1] == pt.frontier_seq()[p2] {
        let l1 = pt.frontier@[p1];
        let l2 = pt.frontier@[p2];
        assert(pt.frontier_map@[pt.topology.spec_index_of(l1)] == Some(p1 as usize));
        assert(pt.frontier_map@[pt.topology.spec_index_of(l2)] == Some(p2 as usize));
        assert(l1 == l2);
        assert(pt.topology.spec_index_of(l1) == pt.topology.spec_index_of(l2));
        assert(Some(p1 as usize) == Some(p2 as usize));
        assert(p1 as usize == p2 as usize);
        assert(false);
    }
}

proof fn lemma_count_all_true(s: Seq<bool>, n: int)
    requires
        forall|m: int| 0 <= m < s.len() ==> (#[trigger] s[m]),
        n <= s.len(),
    ensures
        count_false(s, n) == 0,
    decreases n,
{
    if n > 0 {
        lemma_count_all_true(s, n - 1);
    }
}

} // verus!
