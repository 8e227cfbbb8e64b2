//! The growth orchestrator: owns the canvas, the stages, and the frontier
//! tracker, and paints one pixel per step.
//!
//! A step takes a random frontier cell, averages the colors of its painted
//! neighbors into a target, consumes the closest still-available palette
//! color, and feeds the cell's neighbors back into the frontier. Stages
//! are exhausted in order; each stage transition installs the stage's
//! portals and rebuilds the frontier tracker.

use vstd::prelude::*;

use crate::color::{channel_val, RGB};
use crate::kd_tree::{KDTree, PerformanceStats};
use crate::point_tracker::PointTracker;
use crate::rng::RngSource;
use crate::topology::{PixelLoc, Topology};

verus! {

/// Which rendering of the canvas to save.
#[derive(Debug, Copy, Clone, PartialEq, Eq, Structural)]
pub enum SaveImageType {
    Generated,
    Statistics,
    ColorPalette,
}

/// The region a stage may grow into: either exactly the listed cells, or
/// everything but the listed cells.
#[derive(Clone)]
pub enum RestrictedRegion {
    Allowed(Vec<PixelLoc>),
    Forbidden(Vec<PixelLoc>),
}

/// One growth phase: its palette, budget, seeding policy, region and
/// portal set. Built once and never changed while active.
pub struct GrowthImageStage {
    pub(crate) palette: KDTree,
    pub(crate) max_iter: Option<usize>,
    pub(crate) grow_from_previous: bool,
    pub(crate) selected_seed_points: Vec<PixelLoc>,
    pub(crate) num_random_seed_points: u32,
    pub(crate) restricted_region: RestrictedRegion,
    pub(crate) portals: Vec<(PixelLoc, PixelLoc)>,
}

/// How many of the first `n` pixel slots are painted.
pub open spec fn count_some(s: Seq<Option<RGB>>, n: int) -> int
    decreases n,
{
    if n <= 0 {
        0
    } else {
        count_some(s, n - 1) + if s[n - 1] is Some {
            1int
        } else {
            0int
        }
    }
}

proof fn lemma_count_some_bounds(s: Seq<Option<RGB>>, n: int)
    ensures
        0 <= count_some(s, n) <= vstd::math::max(n, 0),
    decreases n,
{
    if n > 0 {
        lemma_count_some_bounds(s, n - 1);
    }
}

/// Painting one unpainted slot raises the painted count by one.
proof fn lemma_count_some_paint(s: Seq<Option<RGB>>, n: int, k: int, c: RGB)
    requires
        0 <= k < s.len(),
        s[k] is None,
        n <= s.len(),
    ensures
        k < n ==> count_some(s.update(k, Some(c)), n) == count_some(s, n) + 1,
        k >= n ==> count_some(s.update(k, Some(c)), n) == count_some(s, n),
    decreases n,
{
    if n > 0 {
        lemma_count_some_paint(s, n - 1, k, c);
        if k == n - 1 {
            assert(s.update(k, Some(c))[n - 1] is Some);
        } else {
            assert(s.update(k, Some(c))[n - 1] == s[n - 1]);
        }
    }
}

/// An unpainted slot keeps the painted count strictly below the range
/// size.
proof fn lemma_count_some_hole(s: Seq<Option<RGB>>, n: int, k: int)
    requires
        0 <= k < n <= s.len(),
        s[k] is None,
    ensures
        count_some(s, n) <= n - 1,
    decreases n,
{
    lemma_count_some_bounds(s, n - 1);
    if k < n - 1 {
        lemma_count_some_hole(s, n - 1, k);
    }
}

/// The orchestrator: canvas buffers, diagnostic buffers, the stage list,
/// the active frontier, and the random source.
pub struct GrowthImage {
    topology: Topology,
    pixels: Vec<Option<RGB>>,
    stats: Vec<Option<PerformanceStats>>,
    num_filled_pixels: usize,
    stages: Vec<GrowthImageStage>,
    active_stage: Option<usize>,
    current_stage_iter: usize,
    point_tracker: PointTracker,
    epsilon_num: u32,
    epsilon_den: u32,
    rng: RngSource,
    is_done: bool,
}

impl GrowthImage {
    /// The topology of the canvas.
    pub closed spec fn topo(self) -> Topology {
        self.topology
    }

    /// The pixel buffer: one optional color per flat index.
    pub closed spec fn pixels_view(self) -> Seq<Option<RGB>> {
        self.pixels@
    }

    /// The diagnostics buffer: one optional counter record per flat index.
    pub closed spec fn stats_view(self) -> Seq<Option<PerformanceStats>> {
        self.stats@
    }

    pub closed spec fn done_spec(self) -> bool {
        self.is_done
    }

    pub closed spec fn num_filled_spec(self) -> int {
        self.num_filled_pixels as int
    }

    pub closed spec fn stage_count(self) -> int {
        self.stages@.len() as int
    }

    /// The colors still available in stage `s`'s palette.
    pub closed spec fn stage_palette(self, s: int) -> vstd::multiset::Multiset<RGB> {
        self.stages@[s].palette.live()
    }

    pub closed spec fn stage_max_iter(self, s: int) -> Option<usize> {
        self.stages@[s].max_iter
    }

    pub closed spec fn stage_grow_from_previous(self, s: int) -> bool {
        self.stages@[s].grow_from_previous
    }

    pub closed spec fn stage_seed_points(self, s: int) -> Seq<PixelLoc> {
        self.stages@[s].selected_seed_points@
    }

    pub closed spec fn stage_random_seed_count(self, s: int) -> u32 {
        self.stages@[s].num_random_seed_points
    }

    pub closed spec fn stage_region(self, s: int) -> RestrictedRegion {
        self.stages@[s].restricted_region
    }

    pub closed spec fn stage_portal_pairs(self, s: int) -> Seq<(PixelLoc, PixelLoc)> {
        self.stages@[s].portals@
    }

    pub closed spec fn stage_palette_slots(self, s: int) -> Seq<Option<RGB>> {
        self.stages@[s].palette.slots()
    }

    /// What probing stage `s`'s palette for `target` would return.
    pub closed spec fn stage_palette_probe(
        self,
        s: int,
        target: RGB,
        en: int,
        ed: int,
    ) -> Option<RGB> {
        self.stages@[s].palette.probe(target, en, ed)
    }

    /// The channel-wise floored mean of the painted neighbors of `loc`,
    /// as a color.
    pub open spec fn mean_neighbor_color(self, loc: PixelLoc) -> RGB {
        let pn = self.painted_neighbors(loc);
        RGB {
            vals: [
                (sum_channel(pn, 0) / pn.len() as int) as u8,
                (sum_channel(pn, 1) / pn.len() as int) as u8,
                (sum_channel(pn, 2) / pn.len() as int) as u8,
            ],
        }
    }

    /// How far the stage sequence has advanced: `0` before the first
    /// stage, `s + 1` while stage `s` is active.
    pub closed spec fn stage_pos(self) -> int {
        match self.active_stage {
            None => 0,
            Some(s) => s as int + 1,
        }
    }

    /// A bound on the work that remains: decreases with every stage
    /// transition and with every frontier pick.
    pub closed spec fn measure(self) -> int {
        (self.stages@.len() - self.stage_pos() + 1) * (2 * self.topology.spec_len() + 1)
            + self.point_tracker.unused_count() + self.point_tracker.frontier_seq().len()
    }

    /// The orchestrator's invariant: buffers sized to the canvas, a
    /// consistent tracker over the same layers, well-formed palettes, a
    /// correct painted count, and the two growth invariants — a frontier
    /// cell is never painted, and a painted cell is always visited.
    pub closed spec fn wf(self) -> bool {
        &&& self.topology.well_formed()
        &&& self.stages@.len() >= 1
        &&& self.pixels@.len() == self.topology.spec_len()
        &&& self.stats@.len() == self.topology.spec_len()
        &&& self.point_tracker.wf()
        &&& self.point_tracker.topo().layers@ == self.topology.layers@
        &&& (match self.active_stage {
            None => true,
            Some(s) => (s as int) < self.stages@.len(),
        })
        &&& forall|s: int| 0 <= s < self.stages@.len()
            ==> (#[trigger] self.stages@[s]).palette.wf()
        &&& self.epsilon_den >= 1
        &&& self.num_filled_pixels == count_some(self.pixels@, self.pixels@.len() as int)
        &&& self.current_stage_iter <= self.num_filled_pixels
        &&& forall|m: PixelLoc| #[trigger] self.point_tracker.in_frontier(m)
            ==> self.pixels@[self.topology.spec_index_of(m)] is None
        &&& forall|m: PixelLoc| self.topology.spec_valid(m)
            && self.pixels@[self.topology.spec_index_of(m)] is Some
            ==> #[trigger] self.point_tracker.is_used(m)
    }

    /// Assembles a fresh, unstarted orchestrator. Used by the builder.
    pub(crate) fn assemble(
        topology: Topology,
        stages: Vec<GrowthImageStage>,
        epsilon_num: u32,
        epsilon_den: u32,
        rng: RngSource,
    ) -> (r: GrowthImage)
        requires
            topology.well_formed(),
            stages@.len() >= 1,
            forall|s: int| 0 <= s < stages@.len() ==> (#[trigger] stages@[s]).palette.wf(),
            epsilon_den >= 1,
        ensures
            r.wf(),
            !r.done_spec(),
            r.topo() == topology,
            r.topo().layers@ == topology.layers@,
            r.pixels_view().len() == topology.spec_len(),
            forall|k: int| 0 <= k < r.pixels_view().len()
                ==> (#[trigger] r.pixels_view()[k]) is None,
            forall|k: int| 0 <= k < r.stats_view().len()
                ==> (#[trigger] r.stats_view()[k]) is None,
            r.num_filled_spec() == 0,
            r.stage_count() == stages@.len(),
            forall|s: int| 0 <= s < stages@.len() ==> {
                &&& #[trigger] r.stage_palette(s) == stages@[s].palette.live()
                &&& r.stage_max_iter(s) == stages@[s].max_iter
                &&& r.stage_grow_from_previous(s) == stages@[s].grow_from_previous
                &&& r.stage_seed_points(s) == stages@[s].selected_seed_points@
                &&& r.stage_random_seed_count(s) == stages@[s].num_random_seed_points
                &&& r.stage_region(s) == stages@[s].restricted_region
                &&& r.stage_portal_pairs(s) == stages@[s].portals@
            },
    {
        let n = topology.len();
        let mut pixels: Vec<Option<RGB>> = Vec::new();
        let mut stats: Vec<Option<PerformanceStats>> = Vec::new();
        let mut k: usize = 0;
        while k < n
            invariant
                k <= n,
                pixels@.len() == k,
                stats@.len() == k,
                forall|m: int| 0 <= m < k ==> (#[trigger] pixels@[m]) is None,
                forall|m: int| 0 <= m < k ==> (#[trigger] stats@[m]) is None,
                count_some(pixels@, k as int) == 0,
            decreases n - k,
        {
            let ghost pixels_before = pixels@;
            pixels.push(None);
            stats.push(None);
            proof {
                lemma_count_some_prefix(pixels_before, pixels@, k as int);
            }
            k = k + 1;
        }
        let tracker = PointTracker::new(topology.duplicate());
        let r = GrowthImage {
            topology,
            pixels,
            stats,
            num_filled_pixels: 0,
            stages,
            active_stage: None,
            current_stage_iter: 0,
            point_tracker: tracker,
            epsilon_num,
            epsilon_den,
            rng,
            is_done: false,
        };
        proof {
            crate::point_tracker::lemma_empty_frontier(r.point_tracker);
            assert forall|m: PixelLoc| r.topology.spec_valid(m)
                && r.pixels@[r.topology.spec_index_of(m)] is Some implies
                #[trigger] r.point_tracker.is_used(m) by {
                crate::topology::lemma_topology_index_in_range(r.topology, m);
            }
        }
        r
    }

    /// Whether the image can grow no further: every stage has been
    /// exhausted.
    pub fn is_done(&self) -> (r: bool)
        ensures
            r == self.done_spec(),
    {
        self.is_done
    }

    pub fn num_filled_pixels(&self) -> (r: usize)
        ensures
            r == self.num_filled_spec(),
    {
        self.num_filled_pixels
    }

    /// The color painted at flat index `index`, if any.
    pub fn pixel(&self, index: usize) -> (r: Option<RGB>)
        requires
            index < self.pixels_view().len(),
        ensures
            r == self.pixels_view()[index as int],
    {
        self.pixels[index]
    }

    /// The search-cost record of flat index `index`, if the growth ever
    /// probed a palette for it.
    pub fn stats_at(&self, index: usize) -> (r: Option<PerformanceStats>)
        requires
            index < self.stats_view().len(),
        ensures
            r == self.stats_view()[index as int],
    {
        self.stats[index]
    }

    pub fn canvas_len(&self) -> (r: usize)
        requires
            self.wf(),
        ensures
            r == self.pixels_view().len(),
    {
        self.topology.len()
    }

    /// The flat index range of one layer, for rendering it separately.
    pub fn layer_bounds(&self, layer: u8) -> (r: Option<(usize, usize)>)
        requires
            self.wf(),
        ensures
            match r {
                Some(b) => {
                    &&& (layer as int) < self.topo().layers@.len()
                    &&& b.0 == crate::topology::prefix_len(self.topo().layers@, layer as int)
                    &&& b.1 == crate::topology::prefix_len(
                        self.topo().layers@,
                        layer as int + 1,
                    )
                    &&& b.0 <= b.1 <= self.pixels_view().len()
                },
                None => (layer as int) >= self.topo().layers@.len(),
            },
    {
        self.topology.get_layer_bounds(layer)
    }

    /// Which stage is active, if growth has started.
    pub fn active_stage_index(&self) -> (r: Option<usize>)
        ensures
            match r {
                Some(s) => self.stage_pos() == s as int + 1,
                None => self.stage_pos() == 0,
            },
    {
        self.active_stage
    }

    /// The point slots of one stage's palette, for rendering it; consumed
    /// colors stay in place as `None`.
    pub fn palette_slots(&self, stage_index: usize) -> (r: Option<&Vec<Option<RGB>>>)
        ensures
            match r {
                Some(v) => (stage_index as int) < self.stage_count()
                    && v@ == self.stage_palette_slots(stage_index as int),
                None => (stage_index as int) >= self.stage_count(),
            },
    {
        if stage_index < self.stages.len() {
            Some(self.stages[stage_index].palette.point_slots())
        } else {
            None
        }
    }

    /// The flat index of `loc`, if it is a valid location.
    pub fn index_of(&self, loc: PixelLoc) -> (r: Option<usize>)
        requires
            self.wf(),
        ensures
            match r {
                Some(k) => self.topo().spec_valid(loc) && k == self.topo().spec_index_of(loc)
                    && k < self.pixels_view().len(),
                None => !self.topo().spec_valid(loc),
            },
    {
        self.topology.get_index(loc)
    }
}

/// The colors of the painted cells among `adj`, in adjacency order.
pub open spec fn painted_colors(
    t: Topology,
    px: Seq<Option<RGB>>,
    adj: Seq<PixelLoc>,
) -> Seq<RGB>
    decreases adj.len(),
{
    if adj.len() == 0 {
        Seq::empty()
    } else {
        painted_colors(t, px, adj.drop_last()) + (
        if t.spec_valid(adj.last()) && px[t.spec_index_of(adj.last())] is Some {
            seq![px[t.spec_index_of(adj.last())]->0]
        } else {
            Seq::empty()
        })
    }
}

/// The sum of channel `d` over all the colors of `s`.
pub open spec fn sum_channel(s: Seq<RGB>, d: int) -> int
    decreases s.len(),
{
    if s.len() == 0 {
        0
    } else {
        sum_channel(s.drop_last(), d) + channel_val(s.last(), d)
    }
}

proof fn lemma_sum_channel_bounds(s: Seq<RGB>, d: int)
    requires
        0 <= d < 3,
    ensures
        0 <= sum_channel(s, d) <= 255 * s.len(),
    decreases s.len(),
{
    if s.len() > 0 {
        lemma_sum_channel_bounds(s.drop_last(), d);
    }
}

impl GrowthImage {
    /// The colors of the painted neighbors of `loc`, portal partner
    /// included, in adjacency order.
    pub open spec fn painted_neighbors(self, loc: PixelLoc) -> Seq<RGB> {
        painted_colors(self.topo(), self.pixels_view(), self.topo().spec_adjacent(loc))
    }

    /// The channel-wise arithmetic mean of the already-painted neighbors
    /// of `loc`, or `None` if no neighbor is painted yet.
    pub fn get_adjacent_color(&self, loc: PixelLoc) -> (r: Option<RGB>)
        requires
            self.wf(),
        ensures
            match r {
                None => self.painted_neighbors(loc).len() == 0,
                Some(c) => self.painted_neighbors(loc).len() > 0 && forall|d: int| 0 <= d < 3
                    ==> channel_val(c, d) == sum_channel(self.painted_neighbors(loc), d)
                        / self.painted_neighbors(loc).len() as int,
            },
    {
        let adj = self.topology.iter_adjacent(loc);
        let ghost t = self.topology;
        let ghost px = self.pixels@;
        let mut count: u32 = 0;
        let mut rsum: u32 = 0;
        let mut gsum: u32 = 0;
        let mut bsum: u32 = 0;
        let mut n: usize = 0;
        while n < adj.len()
            invariant
                self.wf(),
                t == self.topology,
                px == self.pixels@,
                adj@ == t.spec_adjacent(loc),
                n <= adj@.len(),
                count == painted_colors(t, px, adj@.subrange(0, n as int)).len(),
                count <= n,
                n <= 9,
                rsum == sum_channel(painted_colors(t, px, adj@.subrange(0, n as int)), 0),
                gsum == sum_channel(painted_colors(t, px, adj@.subrange(0, n as int)), 1),
                bsum == sum_channel(painted_colors(t, px, adj@.subrange(0, n as int)), 2),
                rsum <= 255 * count,
                gsum <= 255 * count,
                bsum <= 255 * count,
            decreases adj@.len() - n,
        {
            let ghost sub = adj@.subrange(0, n as int);
            let ghost sub1 = adj@.subrange(0, n + 1);
            proof {
                assert(sub1.drop_last() =~= sub);
                assert(sub1.last() == adj@[n as int]);
                assert(adj@.len() <= 9);
            }
            let a = adj[n];
            let ghost pc = painted_colors(t, px, sub);
            let ghost pc1 = painted_colors(t, px, sub1);
            match self.topology.get_index(a) {
                Some(k) => {
                    match self.pixels[k] {
                        Some(rgb) => {
                            proof {
                                assert(pc1 == pc + seq![px[t.spec_index_of(a)]->0]);
                                assert(pc1.drop_last() =~= pc);
                                assert(pc1.last() == rgb);
                            }
                            count = count + 1;
                            rsum = rsum + rgb.r() as u32;
                            gsum = gsum + rgb.g() as u32;
                            bsum = bsum + rgb.b() as u32;
                        },
                        None => {
                            proof {
                                assert(pc1 =~= pc);
                            }
                        },
                    }
                },
                None => {
                    proof {
                        assert(pc1 =~= pc);
                    }
                },
            }
            n = n + 1;
        }
        proof {
            assert(adj@.subrange(0, adj@.len() as int) =~= adj@);
        }
        if count > 0 {
            proof {
                lemma_mean_channel_in_byte(rsum as int, count as int);
                lemma_mean_channel_in_byte(gsum as int, count as int);
                lemma_mean_channel_in_byte(bsum as int, count as int);
            }
            Some(
                RGB {
                    vals: [
                        (rsum / count) as u8,
                        (gsum / count) as u8,
                        (bsum / count) as u8,
                    ],
                },
            )
        } else {
            None
        }
    }

    /// Whether the active stage can do no more work: its iteration budget
    /// is spent, its palette is exhausted, or the frontier is empty.
    pub closed spec fn spec_stage_finished(self) -> bool {
        match self.active_stage {
            None => true,
            Some(s) => {
                ||| (match self.stages@[s as int].max_iter {
                    Some(mi) => self.current_stage_iter >= mi,
                    None => false,
                })
                ||| self.stages@[s as int].palette.live().len() == 0
                ||| self.point_tracker.frontier_seq().len() == 0
            },
        }
    }

    fn current_stage_finished(&self) -> (r: bool)
        requires
            self.wf(),
        ensures
            r == self.spec_stage_finished(),
    {
        let s = match self.active_stage {
            Some(s) => s,
            None => {
                return true;
            },
        };
        let reached_max_stage_iter = match self.stages[s].max_iter {
            Some(max_iter) => self.current_stage_iter >= max_iter,
            None => false,
        };
        let empty_palette = self.stages[s].palette.num_points() == 0;
        let empty_frontier = self.point_tracker.is_done();
        reached_max_stage_iter || empty_palette || empty_frontier
    }
}

/// Whether the stage's region policy excludes `m` from growth: under
/// `Allowed` everything off the list, under `Forbidden` exactly the list.
pub open spec fn region_excludes(region: RestrictedRegion, m: PixelLoc) -> bool {
    match region {
        RestrictedRegion::Allowed(pts) => !pts@.contains(m),
        RestrictedRegion::Forbidden(pts) => pts@.contains(m),
    }
}

impl GrowthImage {
    /// Starts stage `stage_index`: installs its portals, rebuilds the
    /// frontier tracker according to its region policy, re-seeds from the
    /// already-painted pixels, and adds the stage's explicit and random
    /// seeds.
    #[verifier::rlimit(100)]
    #[verifier::loop_isolation(false)]
    fn start_stage(&mut self, stage_index: usize)
        requires
            old(self).wf(),
            (stage_index as int) < old(self).stage_count(),
        ensures
            final(self).wf(),
            final(self).stage_pos() == stage_index as int + 1,
            final(self).stage_count() == old(self).stage_count(),
            final(self).stages == old(self).stages,
            final(self).pixels_view() == old(self).pixels_view(),
            final(self).stats_view() == old(self).stats_view(),
            final(self).num_filled_spec() == old(self).num_filled_spec(),
            final(self).done_spec() == old(self).done_spec(),
            final(self).topo().layers@ == old(self).topo().layers@,
            final(self).topo().spec_len() == old(self).topo().spec_len(),
            final(self).epsilon_num == old(self).epsilon_num,
            final(self).epsilon_den == old(self).epsilon_den,
            final(self).point_tracker.unused_count()
                + final(self).point_tracker.frontier_seq().len()
                <= final(self).topo().spec_len(),
            forall|loc: PixelLoc| #[trigger] final(self).topology.portal_spec(loc)
                == final(self).topology.spec_portal_from_pairs(
                    old(self).stages@[stage_index as int].portals@,
                    loc,
                ),
            forall|m: PixelLoc| final(self).topology.spec_valid(m)
                ==> (#[trigger] final(self).point_tracker.is_used(m) <==> (
                region_excludes(old(self).stages@[stage_index as int].restricted_region, m)
                    || final(self).pixels@[final(self).topology.spec_index_of(m)] is Some
                    || final(self).point_tracker.in_frontier(m))),
            old(self).stages@[stage_index as int].grow_from_previous ==> forall|
                p: PixelLoc,
                n: PixelLoc,
            |
                final(self).topology.spec_valid(p)
                    && final(self).pixels@[final(self).topology.spec_index_of(p)] is Some
                    && #[trigger] final(self).topology.spec_adjacent(p).contains(n)
                    && final(self).topology.spec_valid(n)
                    && final(self).pixels@[final(self).topology.spec_index_of(n)] is None
                    && !region_excludes(
                    old(self).stages@[stage_index as int].restricted_region,
                    n,
                ) ==> final(self).point_tracker.in_frontier(n),
            forall|i: int| 0 <= i < old(self).stages@[
                stage_index as int
            ].selected_seed_points@.len() && final(self).topology.spec_valid(
                #[trigger] old(self).stages@[stage_index as int].selected_seed_points@[i],
            ) && final(self).pixels@[final(self).topology.spec_index_of(
                old(self).stages@[stage_index as int].selected_seed_points@[i],
            )] is None && !region_excludes(
                old(self).stages@[stage_index as int].restricted_region,
                old(self).stages@[stage_index as int].selected_seed_points@[i],
            ) ==> final(self).point_tracker.in_frontier(
                old(self).stages@[stage_index as int].selected_seed_points@[i],
            ),
    {
        let ghost g0 = *old(self);
        let ghost region = old(self).stages@[stage_index as int].restricted_region;
        let ghost t_pre_portals = self.topology;
        self.active_stage = Some(stage_index);
        self.current_stage_iter = 0;
        self.topology.set_portals(&self.stages[stage_index].portals);
        proof {
            assert forall|loc: PixelLoc| #[trigger] self.topology.portal_spec(loc)
                == self.topology.spec_portal_from_pairs(
                g0.stages@[stage_index as int].portals@,
                loc,
            ) by {
                crate::topology::lemma_portal_from_pairs_congruence(
                    t_pre_portals,
                    self.topology,
                    g0.stages@[stage_index as int].portals@,
                    loc,
                );
            }
        }
        let dup = self.topology.duplicate();
        proof {
            assert(dup.layers@ == self.topology.layers@);
            assert(dup.well_formed());
        }
        let ghost lcount = self.topology.spec_len();
        let mut tracker = PointTracker::new(dup);
        proof {
            crate::point_tracker::lemma_unused_count_bounds(tracker);
        }
        match &self.stages[stage_index].restricted_region {
            RestrictedRegion::Allowed(pts) => {
                tracker.mark_all_as_used();
                let mut i: usize = 0;
                while i < pts.len()
                    invariant
                        i <= pts@.len(),
                        tracker.wf(),
                        tracker.topo() == dup,
                        tracker.frontier_seq().len() == 0,
                        region == RestrictedRegion::Allowed(*pts),
                        forall|m: PixelLoc| self.topology.spec_valid(m)
                            ==> (#[trigger] tracker.is_used(m)
                                <==> !pts@.subrange(0, i as int).contains(m)),
                    decreases pts@.len() - i,
                {
                    proof {
                        crate::point_tracker::lemma_empty_frontier(tracker);
                    }
                    let ghost tr0 = tracker;
                    let sp = pts[i];
                    tracker.mark_as_unused(sp);
                    proof {
                        assert forall|m: PixelLoc| self.topology.spec_valid(m) implies (
                        #[trigger] tracker.is_used(m) <==> !pts@.subrange(
                            0,
                            i + 1,
                        ).contains(m)) by {
                            let sub0 = pts@.subrange(0, i as int);
                            let sub1 = pts@.subrange(0, i + 1);
                            assert(sub1 =~= sub0.push(sp));
                            vstd::seq_lib::lemma_seq_contains_after_push(sub0, sp, m);
                            if m != sp {
                                assert(tracker.is_used(m) == tr0.is_used(m));
                            }
                        }
                    }
                    i = i + 1;
                }
                proof {
                    assert(pts@.subrange(0, pts@.len() as int) =~= pts@);
                }
            },
            RestrictedRegion::Forbidden(pts) => {
                let mut i: usize = 0;
                while i < pts.len()
                    invariant
                        i <= pts@.len(),
                        tracker.wf(),
                        tracker.topo() == dup,
                        tracker.frontier_seq().len() == 0,
                        region == RestrictedRegion::Forbidden(*pts),
                        forall|m: PixelLoc| self.topology.spec_valid(m)
                            ==> (#[trigger] tracker.is_used(m)
                                <==> pts@.subrange(0, i as int).contains(m)),
                    decreases pts@.len() - i,
                {
                    let ghost tr0 = tracker;
                    let sp = pts[i];
                    tracker.mark_as_used(sp);
                    proof {
                        assert forall|m: PixelLoc| self.topology.spec_valid(m) implies (
                        #[trigger] tracker.is_used(m) <==> pts@.subrange(
                            0,
                            i + 1,
                        ).contains(m)) by {
                            let sub0 = pts@.subrange(0, i as int);
                            let sub1 = pts@.subrange(0, i + 1);
                            assert(sub1 =~= sub0.push(sp));
                            vstd::seq_lib::lemma_seq_contains_after_push(sub0, sp, m);
                            if m != sp {
                                assert(tracker.is_used(m) == tr0.is_used(m));
                            }
                        }
                    }
                    i = i + 1;
                }
                proof {
                    assert(pts@.subrange(0, pts@.len() as int) =~= pts@);
                }
            },
        }
        proof {
            crate::point_tracker::lemma_unused_count_bounds(tracker);
            assert forall|m: PixelLoc| self.topology.spec_valid(m) implies (
            #[trigger] tracker.is_used(m) <==> region_excludes(region, m)) by {}
        }
        let grow = self.stages[stage_index].grow_from_previous;
        let n = self.pixels.len();
        proof {
            crate::point_tracker::lemma_empty_frontier(tracker);
            assert forall|m: PixelLoc| self.topology.spec_valid(m)
                && self.topology.spec_index_of(m) < 0
                && self.pixels@[self.topology.spec_index_of(m)] is Some
                implies #[trigger] tracker.is_used(m) by {
                crate::topology::lemma_topology_index_in_range(self.topology, m);
            }
            assert forall|m: PixelLoc| self.topology.spec_valid(m) implies (
            #[trigger] tracker.is_used(m) <==> region_excludes(region, m) || (
            self.pixels@[self.topology.spec_index_of(m)] is Some
                && self.topology.spec_index_of(m) < 0) || tracker.in_frontier(m)) by {
                crate::topology::lemma_topology_index_in_range(self.topology, m);
            }
            assert forall|p: PixelLoc, q: PixelLoc|
                self.topology.spec_valid(p)
                    && self.pixels@[self.topology.spec_index_of(p)] is Some
                    && self.topology.spec_index_of(p) < 0
                    && #[trigger] self.topology.spec_adjacent(p).contains(q)
                    && self.topology.spec_valid(q)
                    && self.pixels@[self.topology.spec_index_of(q)] is None
                    && !region_excludes(region, q) implies tracker.in_frontier(q) by {
                crate::topology::lemma_topology_index_in_range(self.topology, p);
            }
        }
        let mut k: usize = 0;
        while k < n
            invariant
                k <= n,
                tracker.wf(),
                tracker.topo() == dup,
                tracker.unused_count() + tracker.frontier_seq().len() <= lcount,
                forall|m: PixelLoc| self.topology.spec_valid(m)
                    && self.topology.spec_index_of(m) < k
                    && self.pixels@[self.topology.spec_index_of(m)] is Some
                    ==> #[trigger] tracker.is_used(m),
                forall|m: PixelLoc| #[trigger] tracker.in_frontier(m)
                    ==> self.pixels@[self.topology.spec_index_of(m)] is None
                        || self.topology.spec_index_of(m) >= k,
                !grow ==> tracker.frontier_seq().len() == 0,
                forall|m: PixelLoc| self.topology.spec_valid(m)
                    ==> (#[trigger] tracker.is_used(m) <==> region_excludes(region, m) || (
                    self.pixels@[self.topology.spec_index_of(m)] is Some
                        && self.topology.spec_index_of(m) < k) || tracker.in_frontier(m)),
                grow ==> forall|p: PixelLoc, q: PixelLoc|
                    self.topology.spec_valid(p)
                        && self.pixels@[self.topology.spec_index_of(p)] is Some
                        && self.topology.spec_index_of(p) < k
                        && #[trigger] self.topology.spec_adjacent(p).contains(q)
                        && self.topology.spec_valid(q)
                        && self.pixels@[self.topology.spec_index_of(q)] is None
                        && !region_excludes(region, q) ==> tracker.in_frontier(q),
            decreases n - k,
        {
            match self.pixels[k] {
                Some(_) => {
                    match self.topology.get_loc(k) {
                        Some(loc) => {
                            let ghost tr_before = tracker;
                            if grow {
                                tracker.fill(loc);
                            } else {
                                tracker.mark_as_used(loc);
                                proof {
                                    crate::point_tracker::lemma_empty_frontier(tracker);
                                }
                            }
                            proof {
                                crate::topology::lemma_topology_view_congruence(
                                    dup,
                                    self.topology,
                                    loc,
                                );
                                assert forall|m: PixelLoc| self.topology.spec_valid(m)
                                    && self.topology.spec_index_of(m) < k + 1
                                    && self.pixels@[self.topology.spec_index_of(m)] is Some
                                    implies #[trigger] tracker.is_used(m) by {
                                    if self.topology.spec_index_of(m) == k as int {
                                        crate::topology::lemma_topology_index_injective(
                                            self.topology,
                                            m,
                                            loc,
                                        );
                                    }
                                }
                                assert forall|m: PixelLoc| self.topology.spec_valid(m)
                                    implies (#[trigger] tracker.is_used(m)
                                    <==> region_excludes(region, m) || (
                                self.pixels@[self.topology.spec_index_of(m)] is Some
                                    && self.topology.spec_index_of(m) < k + 1)
                                    || tracker.in_frontier(m)) by {
                                    if self.topology.spec_index_of(m) == k as int {
                                        crate::topology::lemma_topology_index_injective(
                                            self.topology,
                                            m,
                                            loc,
                                        );
                                    }
                                    if tracker.in_frontier(m) {
                                        crate::point_tracker::lemma_in_frontier_is_used(
                                            tracker,
                                            m,
                                        );
                                    }
                                    if tr_before.in_frontier(m) && m != loc {
                                        assert(tracker.in_frontier(m));
                                    }
                                }
                                if grow {
                                    assert forall|p: PixelLoc, q: PixelLoc|
                                        self.topology.spec_valid(p) && self.pixels@[
                                    self.topology.spec_index_of(p)] is Some
                                        && self.topology.spec_index_of(p) < k + 1
                                        && #[trigger] self.topology.spec_adjacent(
                                        p,
                                    ).contains(q) && self.topology.spec_valid(q)
                                        && self.pixels@[self.topology.spec_index_of(
                                        q,
                                    )] is None && !region_excludes(region, q) implies
                                        tracker.in_frontier(q) by {
                                        assert(q != loc);
                                        if self.topology.spec_index_of(p) == k as int {
                                            crate::topology::lemma_topology_index_injective(
                                                self.topology,
                                                p,
                                                loc,
                                            );
                                            assert(p == loc);
                                            assert(dup.spec_adjacent(loc).contains(q));
                                            if tr_before.is_used(q) {
                                                assert(tr_before.in_frontier(q));
                                            }
                                        }
                                    }
                                }
                                assert forall|m: PixelLoc| #[trigger] tracker.in_frontier(m)
                                    implies self.pixels@[self.topology.spec_index_of(m)]
                                        is None
                                        || self.topology.spec_index_of(m) >= k + 1 by {
                                    if self.pixels@[self.topology.spec_index_of(m)]
                                        is Some {
                                        crate::point_tracker::lemma_in_frontier_valid(
                                            tracker,
                                            m,
                                        );
                                        assert(self.topology.spec_valid(m));
                                        if !tr_before.in_frontier(m) {
                                            assert(!tr_before.is_used(m));
                                        }
                                        if self.topology.spec_index_of(m) == k as int {
                                            crate::topology::lemma_topology_index_injective(
                                                self.topology,
                                                m,
                                                loc,
                                            );
                                        }
                                    }
                                }
                            }
                        },
                        None => {},
                    }
                },
                None => {},
            }
            k = k + 1;
        }
        proof {
            assert forall|m: PixelLoc| #[trigger] tracker.in_frontier(m) implies
                self.pixels@[self.topology.spec_index_of(m)] is None by {
                crate::point_tracker::lemma_in_frontier_valid(tracker, m);
                assert(self.topology.spec_valid(m));
                crate::topology::lemma_topology_index_in_range(self.topology, m);
            }
            assert forall|m: PixelLoc| self.topology.spec_valid(m)
                && self.pixels@[self.topology.spec_index_of(m)] is Some
                implies #[trigger] tracker.is_used(m) by {
                crate::topology::lemma_topology_index_in_range(self.topology, m);
            }
            assert forall|m: PixelLoc| self.topology.spec_valid(m) implies (
            #[trigger] tracker.is_used(m) <==> region_excludes(region, m)
                || self.pixels@[self.topology.spec_index_of(m)] is Some
                || tracker.in_frontier(m)) by {
                crate::topology::lemma_topology_index_in_range(self.topology, m);
            }
            if grow {
                assert forall|p: PixelLoc, q: PixelLoc|
                    self.topology.spec_valid(p)
                        && self.pixels@[self.topology.spec_index_of(p)] is Some
                        && #[trigger] self.topology.spec_adjacent(p).contains(q)
                        && self.topology.spec_valid(q)
                        && self.pixels@[self.topology.spec_index_of(q)] is None
                        && !region_excludes(region, q) implies tracker.in_frontier(q) by {
                    crate::topology::lemma_topology_index_in_range(self.topology, p);
                }
            }
        }
        let ghost seeds = self.stages@[stage_index as int].selected_seed_points@;
        let seeds_len = self.stages[stage_index].selected_seed_points.len();
        let mut i: usize = 0;
        while i < seeds_len
            invariant
                i <= seeds_len,
                seeds == self.stages@[stage_index as int].selected_seed_points@,
                seeds_len == seeds.len(),
                tracker.wf(),
                tracker.topo() == dup,
                tracker.unused_count() + tracker.frontier_seq().len() <= lcount,
                forall|m: PixelLoc| self.topology.spec_valid(m)
                    && self.pixels@[self.topology.spec_index_of(m)] is Some
                    ==> #[trigger] tracker.is_used(m),
                forall|m: PixelLoc| #[trigger] tracker.in_frontier(m)
                    ==> self.pixels@[self.topology.spec_index_of(m)] is None,
                forall|m: PixelLoc| self.topology.spec_valid(m)
                    ==> (#[trigger] tracker.is_used(m) <==> region_excludes(region, m)
                        || self.pixels@[self.topology.spec_index_of(m)] is Some
                        || tracker.in_frontier(m)),
                grow ==> forall|p: PixelLoc, q: PixelLoc|
                    self.topology.spec_valid(p)
                        && self.pixels@[self.topology.spec_index_of(p)] is Some
                        && #[trigger] self.topology.spec_adjacent(p).contains(q)
                        && self.topology.spec_valid(q)
                        && self.pixels@[self.topology.spec_index_of(q)] is None
                        && !region_excludes(region, q) ==> tracker.in_frontier(q),
                forall|q: int| 0 <= q < i && self.topology.spec_valid(#[trigger] seeds[q])
                    && self.pixels@[self.topology.spec_index_of(seeds[q])] is None
                    && !region_excludes(region, seeds[q]) ==> tracker.in_frontier(seeds[q]),
            decreases seeds_len - i,
        {
            let sp = self.stages[stage_index].selected_seed_points[i];
            let ghost tr_before = tracker;
            tracker.add_to_frontier(sp);
            proof {
                assert forall|m: PixelLoc| #[trigger] tracker.in_frontier(m) implies
                    self.pixels@[self.topology.spec_index_of(m)] is None by {
                    crate::point_tracker::lemma_in_frontier_valid(tracker, m);
                    assert(self.topology.spec_valid(m));
                    if !tr_before.in_frontier(m) {
                        assert(!tr_before.is_used(m));
                    }
                }
                assert forall|m: PixelLoc| self.topology.spec_valid(m) implies (
                #[trigger] tracker.is_used(m) <==> region_excludes(region, m)
                    || self.pixels@[self.topology.spec_index_of(m)] is Some
                    || tracker.in_frontier(m)) by {
                    if tracker.in_frontier(m) {
                        crate::point_tracker::lemma_in_frontier_is_used(tracker, m);
                    }
                    if m != sp {
                        assert(tracker.is_used(m) == tr_before.is_used(m));
                        assert(tracker.in_frontier(m) == tr_before.in_frontier(m));
                    }
                }
                assert forall|q: int| 0 <= q < i + 1 && self.topology.spec_valid(
                    #[trigger] seeds[q],
                ) && self.pixels@[self.topology.spec_index_of(seeds[q])] is None
                    && !region_excludes(region, seeds[q]) implies tracker.in_frontier(
                    seeds[q],
                ) by {
                    if q == i {
                        assert(seeds[q] == sp);
                        if tr_before.is_used(sp) {
                            assert(tr_before.in_frontier(sp));
                        }
                    }
                }
            }
            i = i + 1;
        }
        let cnt = self.stages[stage_index].num_random_seed_points;
        let ghost tr_before = tracker;
        tracker.add_random_to_frontier(cnt as usize, &mut self.rng);
        proof {
            assert forall|m: PixelLoc| #[trigger] tracker.in_frontier(m) implies
                self.pixels@[self.topology.spec_index_of(m)] is None by {
                crate::point_tracker::lemma_in_frontier_valid(tracker, m);
                assert(self.topology.spec_valid(m));
                if !tr_before.in_frontier(m) {
                    assert(!tr_before.is_used(m));
                }
            }
            assert forall|m: PixelLoc| self.topology.spec_valid(m) implies (
            #[trigger] tracker.is_used(m) <==> region_excludes(region, m)
                || self.pixels@[self.topology.spec_index_of(m)] is Some
                || tracker.in_frontier(m)) by {
                if tracker.in_frontier(m) {
                    crate::point_tracker::lemma_in_frontier_is_used(tracker, m);
                }
            }
        }
        self.point_tracker = tracker;
    }
}

/// Advancing one stage outweighs any growth of the tracker potential,
/// since a fresh tracker's potential is at most the canvas size.
proof fn lemma_measure_stage_step(
    s: int,
    l: int,
    pos_old: int,
    pos_new: int,
    sum_old: int,
    sum_new: int,
)
    by (nonlinear_arith)
    requires
        pos_new == pos_old + 1,
        sum_old >= 0,
        0 <= sum_new <= l,
        l >= 0,
    ensures
        (s - pos_new + 1) * (2 * l + 1) + sum_new < (s - pos_old + 1) * (2 * l + 1) + sum_old,
{
}

proof fn lemma_measure_term_nonneg(a: int, l: int)
    by (nonlinear_arith)
    requires
        a >= 1,
        l >= 0,
    ensures
        a * (2 * l + 1) >= 1,
{
}

impl GrowthImage {
    /// The remaining-work bound is never negative.
    proof fn lemma_measure_nonneg(self)
        requires
            self.wf(),
        ensures
            self.measure() >= 0,
    {
        crate::point_tracker::lemma_unused_count_bounds(self.point_tracker);
        lemma_measure_term_nonneg(
            self.stages@.len() - self.stage_pos() + 1,
            self.topology.spec_len(),
        );
    }

    /// One attempted growth step: advances stages as needed, then picks a
    /// random frontier cell, paints it with the closest remaining palette
    /// color, and reports the cell and color; `None` means this call
    /// produced nothing, either because every stage is exhausted or
    /// because the palette ran out at the last moment.
    #[verifier::rlimit(100)]
    #[verifier::spinoff_prover]
    fn try_fill(&mut self) -> (r: Option<(PixelLoc, RGB)>)
        requires
            old(self).wf(),
        ensures
            final(self).wf(),
            final(self).topo().layers@ == old(self).topo().layers@,
            final(self).pixels_view().len() == old(self).pixels_view().len(),
            final(self).stats_view().len() == old(self).stats_view().len(),
            final(self).stage_count() == old(self).stage_count(),
            final(self).done_spec() == old(self).done_spec(),
            forall|k: int| 0 <= k < old(self).pixels_view().len()
                && (#[trigger] old(self).pixels_view()[k]) is Some
                ==> final(self).pixels_view()[k] == old(self).pixels_view()[k],
            final(self).num_filled_spec() == old(self).num_filled_spec() + (
            if r is Some {
                1int
            } else {
                0int
            }),
            final(self).measure() <= old(self).measure(),
            r is Some ==> final(self).measure() < old(self).measure(),
            r matches Some(pr) ==> {
                &&& final(self).topo().spec_valid(pr.0)
                &&& old(self).pixels_view()[final(self).topo().spec_index_of(pr.0)] is None
                &&& final(self).pixels_view()[final(self).topo().spec_index_of(pr.0)]
                    == Some(pr.1)
            },
            r matches Some(pr) ==> (old(self).stage_pos() >= 1
                && !old(self).spec_stage_finished()
                ==> old(self).point_tracker.in_frontier(pr.0)),
            r matches Some(pr) ==> (old(self).stage_pos() >= 1
                && !old(self).spec_stage_finished()
                && old(self).painted_neighbors(pr.0).len() > 0
                ==> Some(pr.1) == old(self).stage_palette_probe(
                final(self).stage_pos() - 1,
                old(self).mean_neighbor_color(pr.0),
                old(self).epsilon_num as int,
                old(self).epsilon_den as int,
            )),
            r matches Some(pr) ==> final(self).stats_view()[final(self).topo().spec_index_of(
                pr.0,
            )] is Some,
            r matches Some(pr) ==> forall|k: int| 0 <= k < old(self).stats_view().len()
                && k != final(self).topo().spec_index_of(pr.0)
                ==> #[trigger] final(self).stats_view()[k] == old(self).stats_view()[k],
            r matches Some(pr) ==> {
                &&& 1 <= final(self).stage_pos() <= old(self).stage_count()
                &&& old(self).stage_palette(final(self).stage_pos() - 1).count(pr.1) > 0
                &&& final(self).stage_palette(final(self).stage_pos() - 1)
                    == old(self).stage_palette(final(self).stage_pos() - 1).remove(pr.1)
            },
            r is Some ==> forall|t: int|
                0 <= t < old(self).stage_count() && t != final(self).stage_pos() - 1
                ==> #[trigger] final(self).stage_palette(t) == old(self).stage_palette(t),
            r is None ==> forall|t: int| 0 <= t < old(self).stage_count()
                ==> #[trigger] final(self).stage_palette(t) == old(self).stage_palette(t),
            old(self).stage_pos() >= 1 && !old(self).spec_stage_finished() ==> r is Some,
            r is None ==> final(self).stage_pos() == final(self).stage_count()
                && final(self).spec_stage_finished(),
    {
        let ghost g0 = *old(self);
        if self.active_stage.is_none() {
            let ghost before = *self;
            self.start_stage(0);
            proof {
                crate::point_tracker::lemma_unused_count_bounds(before.point_tracker);
                crate::point_tracker::lemma_unused_count_bounds(self.point_tracker);
                lemma_measure_stage_step(
                    self.stages@.len() as int,
                    self.topology.spec_len(),
                    before.stage_pos(),
                    self.stage_pos(),
                    before.point_tracker.unused_count()
                        + before.point_tracker.frontier_seq().len(),
                    self.point_tracker.unused_count()
                        + self.point_tracker.frontier_seq().len(),
                );
            }
        }
        while self.current_stage_finished()
            invariant
                self.wf(),
                self.stage_pos() >= 1,
                self.topo().layers@ == g0.topo().layers@,
                self.topo().spec_len() == g0.topo().spec_len(),
                self.pixels@ == g0.pixels@,
                self.stats@ == g0.stats@,
                self.num_filled_pixels == g0.num_filled_pixels,
                self.is_done == g0.is_done,
                self.stage_count() == g0.stage_count(),
                self.stages == g0.stages,
                self.measure() <= g0.measure(),
                g0 == *old(self),
                g0.stage_pos() >= 1 && !g0.spec_stage_finished() ==> *self == g0,
            decreases self.stage_count() - self.stage_pos(),
        {
            let s = match self.active_stage {
                Some(s) => s,
                None => {
                    return None;
                },
            };
            let stage_total = self.stages.len();
            if s >= stage_total {
                return None;
            }
            if s + 1 < stage_total {
                let ghost before = *self;
                self.start_stage(s + 1);
                proof {
                    crate::point_tracker::lemma_unused_count_bounds(before.point_tracker);
                    crate::point_tracker::lemma_unused_count_bounds(self.point_tracker);
                    lemma_measure_stage_step(
                        self.stages@.len() as int,
                        self.topology.spec_len(),
                        before.stage_pos(),
                        self.stage_pos(),
                        before.point_tracker.unused_count()
                            + before.point_tracker.frontier_seq().len(),
                        self.point_tracker.unused_count()
                            + self.point_tracker.frontier_seq().len(),
                    );
                }
            } else {
                return None;
            }
        }
        let ghost g_loop = *self;
        proof {
            assert(!g_loop.spec_stage_finished());
        }
        let s_idx = match self.active_stage {
            Some(s) => s,
            None => {
                return None;
            },
        };
        let fs = self.point_tracker.frontier_size();
        let pick = self.rng.gen_index(fs);
        let next_loc = self.point_tracker.get_frontier_point(pick);
        let ghost g1 = *self;
        proof {
            crate::point_tracker::lemma_in_frontier_valid(self.point_tracker, next_loc);
            assert(self.topology.spec_valid(next_loc));
            crate::topology::lemma_topology_index_in_range(self.topology, next_loc);
        }
        self.point_tracker.fill(next_loc);
        proof {
            assert forall|m: PixelLoc| #[trigger] self.point_tracker.in_frontier(m) implies
                self.pixels@[self.topology.spec_index_of(m)] is None by {
                crate::point_tracker::lemma_in_frontier_valid(self.point_tracker, m);
                assert(self.topology.spec_valid(m));
                if !g1.point_tracker.in_frontier(m) {
                    assert(!g1.point_tracker.is_used(m));
                }
            }
            assert forall|m: PixelLoc| self.topology.spec_valid(m)
                && self.pixels@[self.topology.spec_index_of(m)] is Some
                implies #[trigger] self.point_tracker.is_used(m) by {
                assert(g1.point_tracker.is_used(m));
            }
        }
        let ghost g_fill = *self;
        let next_index = match self.topology.get_index(next_loc) {
            Some(i) => i,
            None => {
                return None;
            },
        };
        let ghost g_pre_mean = *self;
        let target_color = match self.get_adjacent_color(next_loc) {
            Some(c) => c,
            None => RGB {
                vals: [self.rng.gen_u8(), self.rng.gen_u8(), self.rng.gen_u8()],
            },
        };
        proof {
            if g0.stage_pos() >= 1 && !g0.spec_stage_finished()
                && g0.painted_neighbors(next_loc).len() > 0 {
                assert(g_loop == g0);
                assert(g_pre_mean.painted_neighbors(next_loc)
                    == g0.painted_neighbors(next_loc));
                let pn = g0.painted_neighbors(next_loc);
                let mean = g0.mean_neighbor_color(next_loc);
                lemma_sum_channel_bounds(pn, 0);
                lemma_sum_channel_bounds(pn, 1);
                lemma_sum_channel_bounds(pn, 2);
                lemma_mean_channel_in_byte(sum_channel(pn, 0), pn.len() as int);
                lemma_mean_channel_in_byte(sum_channel(pn, 1), pn.len() as int);
                lemma_mean_channel_in_byte(sum_channel(pn, 2), pn.len() as int);
                assert(channel_val(target_color, 0) == sum_channel(pn, 0) / pn.len() as int);
                assert(channel_val(target_color, 1) == sum_channel(pn, 1) / pn.len() as int);
                assert(channel_val(target_color, 2) == sum_channel(pn, 2) / pn.len() as int);
                assert(mean.vals[0] as int == sum_channel(pn, 0) / pn.len() as int);
                assert(mean.vals[1] as int == sum_channel(pn, 1) / pn.len() as int);
                assert(mean.vals[2] as int == sum_channel(pn, 2) / pn.len() as int);
                assert(target_color.vals[0] == mean.vals[0]);
                assert(target_color.vals[1] == mean.vals[1]);
                assert(target_color.vals[2] == mean.vals[2]);
                assert(target_color.vals =~= mean.vals);
                assert(target_color == mean);
            }
        }
        let ghost g2 = *self;
        let mut stage = self.stages.remove(s_idx);
        let res = stage.palette.pop_closest(
            &target_color,
            self.epsilon_num,
            self.epsilon_den,
        );
        self.stages.insert(s_idx, stage);
        proof {
            assert(self.stages@ =~= g2.stages@.update(s_idx as int, self.stages@[s_idx as int]));
        }
        self.stats.set(next_index, Some(res.stats));
        proof {
            assert forall|t: int| 0 <= t < g0.stage_count() && t != s_idx as int implies
                #[trigger] self.stage_palette(t) == g0.stage_palette(t) by {
                assert(self.stages@[t] == g2.stages@[t]);
            }
        }
        match res.res {
            None => {
                proof {
                    // the stage was unfinished when it was picked, so its
                    // palette still held a color and the pop cannot miss
                    assert(g2.stages@[s_idx as int] == g_loop.stages@[s_idx as int]);
                    assert(g_loop.stage_palette(s_idx as int).len() > 0);
                    assert(false);
                }
                None
            },
            Some(next_color) => {
                let ghost px_before = self.pixels@;
                proof {
                    lemma_count_some_hole(
                        px_before,
                        px_before.len() as int,
                        next_index as int,
                    );
                    lemma_count_some_paint(
                        px_before,
                        px_before.len() as int,
                        next_index as int,
                        next_color,
                    );
                }
                self.pixels.set(next_index, Some(next_color));
                proof {
                    assert(self.point_tracker == g_fill.point_tracker);
                    assert(px_before == g_fill.pixels@);
                    assert forall|m: PixelLoc| #[trigger] self.point_tracker.in_frontier(m)
                        implies self.pixels@[self.topology.spec_index_of(m)] is None by {
                        crate::point_tracker::lemma_in_frontier_valid(
                            self.point_tracker,
                            m,
                        );
                        assert(self.topology.spec_valid(m));
                        crate::topology::lemma_topology_index_in_range(self.topology, m);
                        if self.topology.spec_index_of(m) == next_index as int {
                            crate::topology::lemma_topology_index_injective(
                                self.topology,
                                m,
                                next_loc,
                            );
                            assert(!g_fill.point_tracker.in_frontier(next_loc));
                        } else {
                            assert(g_fill.point_tracker.in_frontier(m));
                            assert(g_fill.pixels@[self.topology.spec_index_of(m)] is None);
                        }
                    }
                    assert forall|m: PixelLoc| self.topology.spec_valid(m)
                        && self.pixels@[self.topology.spec_index_of(m)] is Some
                        implies #[trigger] self.point_tracker.is_used(m) by {
                        crate::topology::lemma_topology_index_in_range(self.topology, m);
                        if self.topology.spec_index_of(m) == next_index as int {
                            crate::topology::lemma_topology_index_injective(
                                self.topology,
                                m,
                                next_loc,
                            );
                        } else {
                            assert(g_fill.pixels@[self.topology.spec_index_of(m)] is Some);
                            assert(g_fill.point_tracker.is_used(m));
                        }
                    }
                }
                self.current_stage_iter = self.current_stage_iter + 1;
                self.num_filled_pixels = self.num_filled_pixels + 1;
                proof {
                    let si = s_idx as int;
                    assert(self.stage_pos() - 1 == si);
                    assert(g0.stage_palette(si).count(next_color) > 0);
                    assert(self.stage_palette(si) == g0.stage_palette(si).remove(next_color));
                    if g0.stage_pos() >= 1 && !g0.spec_stage_finished()
                        && g0.painted_neighbors(next_loc).len() > 0 {
                        assert(g_loop == g0);
                        assert(g2.stages@[si].palette == g0.stages@[si].palette);
                        assert(Some(next_color) == g0.stage_palette_probe(
                            si,
                            g0.mean_neighbor_color(next_loc),
                            g0.epsilon_num as int,
                            g0.epsilon_den as int,
                        ));
                    }
                }
                Some((next_loc, next_color))
            },
        }
    }

    /// One growth step. Sets the done flag when the step produced
    /// nothing, which the caller reads through [`Self::is_done`].
    pub fn fill(&mut self)
        requires
            old(self).wf(),
        ensures
            final(self).wf(),
            final(self).pixels_view().len() == old(self).pixels_view().len(),
            forall|k: int| 0 <= k < old(self).pixels_view().len()
                && (#[trigger] old(self).pixels_view()[k]) is Some
                ==> final(self).pixels_view()[k] == old(self).pixels_view()[k],
            final(self).num_filled_spec() == old(self).num_filled_spec() + (
            if final(self).done_spec() {
                0int
            } else {
                1int
            }),
            final(self).measure() <= old(self).measure(),
            !final(self).done_spec() ==> final(self).measure() < old(self).measure(),
            !final(self).done_spec() ==> {
                &&& 1 <= final(self).stage_pos() <= old(self).stage_count()
                &&& exists|c: RGB| #[trigger] old(self).stage_palette(
                    final(self).stage_pos() - 1,
                ).count(c) > 0 && final(self).stage_palette(final(self).stage_pos() - 1)
                    == old(self).stage_palette(final(self).stage_pos() - 1).remove(c)
            },
            !final(self).done_spec() ==> forall|t: int|
                0 <= t < old(self).stage_count() && t != final(self).stage_pos() - 1
                ==> #[trigger] final(self).stage_palette(t) == old(self).stage_palette(t),
            final(self).done_spec() ==> forall|t: int| 0 <= t < old(self).stage_count()
                ==> #[trigger] final(self).stage_palette(t) == old(self).stage_palette(t),
            old(self).stage_pos() >= 1 && !old(self).spec_stage_finished()
                ==> !final(self).done_spec(),
            final(self).done_spec() ==> final(self).stage_pos() == final(self).stage_count()
                && final(self).spec_stage_finished(),
    {
        let res = self.try_fill();
        let ghost mid = *self;
        self.is_done = res.is_none();
        proof {
            assert(self.stage_pos() == mid.stage_pos());
            assert(self.stage_count() == mid.stage_count());
            assert(self.spec_stage_finished() == mid.spec_stage_finished());
            assert forall|t: int| 0 <= t < old(self).stage_count() implies
                #[trigger] self.stage_palette(t) == mid.stage_palette(t) by {
                assert(self.stages@[t] == mid.stages@[t]);
            }
        }
    }

    /// Runs growth steps until every stage is exhausted and the frontier
    /// has emptied for good.
    pub fn fill_until_done(&mut self)
        requires
            old(self).wf(),
        ensures
            final(self).wf(),
            final(self).done_spec(),
            final(self).pixels_view().len() == old(self).pixels_view().len(),
            forall|k: int| 0 <= k < old(self).pixels_view().len()
                && (#[trigger] old(self).pixels_view()[k]) is Some
                ==> final(self).pixels_view()[k] == old(self).pixels_view()[k],
            old(self).done_spec() ==> *final(self) == *old(self),
            !old(self).done_spec() ==> final(self).stage_pos() == final(self).stage_count()
                && final(self).spec_stage_finished(),
    {
        while !self.is_done
            invariant
                self.wf(),
                self.pixels@.len() == old(self).pixels@.len(),
                forall|k: int| 0 <= k < old(self).pixels@.len()
                    && (#[trigger] old(self).pixels@[k]) is Some
                    ==> self.pixels@[k] == old(self).pixels@[k],
                old(self).done_spec() ==> *self == *old(self),
                self.done_spec() && !old(self).done_spec()
                    ==> self.stage_pos() == self.stage_count() && self.spec_stage_finished(),
            decreases self.measure() + (if self.is_done { 0int } else { 1int }),
        {
            proof {
                self.lemma_measure_nonneg();
            }
            self.fill();
            proof {
                self.lemma_measure_nonneg();
            }
        }
    }
}

/// The RGBA encoding of `n` pixel slots starting at `start`: opaque
/// channel bytes for a painted cell, four zero bytes for a bare one.
pub open spec fn rgba_bytes(px: Seq<Option<RGB>>, start: int, n: int) -> Seq<u8>
    decreases n,
{
    if n <= 0 {
        Seq::empty()
    } else {
        rgba_bytes(px, start, n - 1) + (match px[start + n - 1] {
            Some(c) => seq![c.vals[0], c.vals[1], c.vals[2], 255u8],
            None => seq![0u8, 0u8, 0u8, 0u8],
        })
    }
}

impl GrowthImage {
    /// The RGBA bytes of one layer of the canvas, with its width and
    /// height, ready for an image encoder; unpainted cells come out
    /// fully transparent.
    pub fn generated_image_data(&self, layer: u8) -> (r: Option<(Vec<u8>, u32, u32)>)
        requires
            self.wf(),
        ensures
            match r {
                None => (layer as int) >= self.topo().layers@.len(),
                Some(d) => {
                    &&& (layer as int) < self.topo().layers@.len()
                    &&& d.1 == self.topo().layers@[layer as int].width
                    &&& d.2 == self.topo().layers@[layer as int].height
                    &&& d.0@ == rgba_bytes(
                        self.pixels_view(),
                        crate::topology::prefix_len(self.topo().layers@, layer as int),
                        self.topo().layers@[layer as int].spec_len(),
                    )
                },
            },
    {
        let bounds = match self.topology.get_layer_bounds(layer) {
            Some(b) => b,
            None => {
                return None;
            },
        };
        let start = bounds.0;
        let end = bounds.1;
        let mut data: Vec<u8> = Vec::new();
        let mut k: usize = start;
        while k < end
            invariant
                self.wf(),
                start <= k <= end <= self.pixels@.len(),
                data@ == rgba_bytes(self.pixels@, start as int, k - start),
            decreases end - k,
        {
            let ghost before = data@;
            match self.pixels[k] {
                Some(rgb) => {
                    data.push(rgb.r());
                    data.push(rgb.g());
                    data.push(rgb.b());
                    data.push(255);
                },
                None => {
                    data.push(0);
                    data.push(0);
                    data.push(0);
                    data.push(0);
                },
            }
            proof {
                assert(data@ =~= rgba_bytes(self.pixels@, start as int, k + 1 - start));
            }
            k = k + 1;
        }
        let size = self.topology.layers[layer as usize];
        Some((data, size.width, size.height))
    }
}

/// The mean of up to nine byte-sized channel values is a byte again.
proof fn lemma_mean_channel_in_byte(sum: int, count: int)
    requires
        count >= 1,
        0 <= sum <= 255 * count,
    ensures
        0 <= sum / count <= 255,
{
    vstd::arithmetic::div_mod::lemma_div_pos_is_pos(sum, count);
    vstd::arithmetic::div_mod::lemma_div_is_ordered(sum, 255 * count, count);
    assert((count * 255) / count == 255) by {
        vstd::arithmetic::div_mod::lemma_div_multiples_vanish(255, count);
    }
    assert(255 * count == count * 255) by (nonlinear_arith);
}

proof fn lemma_count_some_prefix(s1: Seq<Option<RGB>>, s2: Seq<Option<RGB>>, n: int)
    requires
        forall|m: int| 0 <= m < n ==> s1[m] == s2[m],
    ensures
        count_some(s1, n) == count_some(s2, n),
    decreases n,
{
    if n > 0 {
        lemma_count_some_prefix(s1, s2, n - 1);
    }
}

} // verus!
