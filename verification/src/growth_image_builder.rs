//! Builders for the orchestrator and its stages.
//!
//! A builder collects layers, stages and options, checks the
//! configuration once, and hands back a ready orchestrator; every
//! configuration error is reported before any growth runs.

use vstd::prelude::*;

use crate::color::RGB;
use crate::errors::Error;
use crate::growth_image::{GrowthImage, GrowthImageStage, RestrictedRegion};
use crate::kd_tree::KDTree;
use crate::rng::RngSource;
use crate::topology::{prefix_len, PixelLoc, RectangularArray, Topology};

verus! {

/// The resolved number of random seed cells for one stage, per the
/// default seeding policy: an explicit request always wins; otherwise
/// explicit seed cells suppress random ones; otherwise the first stage,
/// and any stage that does not grow from its predecessor, gets exactly
/// one random seed.
pub open spec fn spec_resolved_random_seed_count(
    explicit_count: Option<u32>,
    has_explicit_seeds: bool,
    is_first_stage: bool,
    grow_from_previous: Option<bool>,
) -> u32 {
    match explicit_count {
        Some(n) => n,
        None => if has_explicit_seeds {
            0
        } else if is_first_stage || grow_from_previous == Some(false) {
            1
        } else {
            0
        },
    }
}

/// The seeding decision table as a pure function.
pub fn resolve_random_seed_count(
    explicit_count: Option<u32>,
    has_explicit_seeds: bool,
    is_first_stage: bool,
    grow_from_previous: Option<bool>,
) -> (r: u32)
    ensures
        r == spec_resolved_random_seed_count(
            explicit_count,
            has_explicit_seeds,
            is_first_stage,
            grow_from_previous,
        ),
{
    match explicit_count {
        Some(n) => n,
        None => {
            if has_explicit_seeds {
                0
            } else {
                let from_scratch = match grow_from_previous {
                    Some(g) => !g,
                    None => false,
                };
                if is_first_stage || from_scratch {
                    1
                } else {
                    0
                }
            }
        },
    }
}

/// Per-stage configuration before it is checked and frozen.
pub struct GrowthImageStageBuilder {
    pub palette_colors: Option<Vec<RGB>>,
    pub max_iter: Option<usize>,
    pub num_random_seed_points: Option<u32>,
    pub selected_seed_points: Option<Vec<PixelLoc>>,
    pub grow_from_previous: Option<bool>,
    pub restricted_region: RestrictedRegion,
    pub connected_points: Vec<(PixelLoc, PixelLoc)>,
}

impl GrowthImageStageBuilder {
    pub fn new() -> (r: GrowthImageStageBuilder)
        ensures
            r.palette_colors is None,
            r.max_iter is None,
            r.num_random_seed_points is None,
            r.selected_seed_points is None,
            r.grow_from_previous is None,
            r.restricted_region matches RestrictedRegion::Forbidden(f) && f@.len() == 0,
            r.connected_points@.len() == 0,
    {
        GrowthImageStageBuilder {
            palette_colors: None,
            max_iter: None,
            num_random_seed_points: None,
            selected_seed_points: None,
            grow_from_previous: None,
            restricted_region: RestrictedRegion::Forbidden(Vec::new()),
            connected_points: Vec::new(),
        }
    }

    /// The colors this stage may consume. A stage must be given its colors
    /// explicitly: generating a palette (uniform cube sampling, spheres
    /// around a center) is a numeric mapping left to the caller, and a
    /// stage without colors is rejected when the image is built.
    pub fn palette(&mut self, colors: Vec<RGB>)
        ensures
            *final(self) == (GrowthImageStageBuilder {
                palette_colors: Some(colors),
                ..*old(self)
            }),
    {
        self.palette_colors = Some(colors);
    }

    /// Caps how many pixels this stage may paint.
    pub fn max_iter(&mut self, max_iter: usize)
        ensures
            *final(self) == (GrowthImageStageBuilder { max_iter: Some(max_iter), ..*old(self) }),
    {
        self.max_iter = Some(max_iter);
    }

    pub fn num_random_seed_points(&mut self, num_seed_points: u32)
        ensures
            *final(self) == (GrowthImageStageBuilder {
                num_random_seed_points: Some(num_seed_points),
                ..*old(self)
            }),
    {
        self.num_random_seed_points = Some(num_seed_points);
    }

    pub fn seed_points(&mut self, seed_points: Vec<PixelLoc>)
        ensures
            *final(self) == (GrowthImageStageBuilder {
                selected_seed_points: Some(seed_points),
                ..*old(self)
            }),
    {
        self.selected_seed_points = Some(seed_points);
    }

    pub fn grow_from_previous(&mut self, grow_from_previous: bool)
        ensures
            *final(self) == (GrowthImageStageBuilder {
                grow_from_previous: Some(grow_from_previous),
                ..*old(self)
            }),
    {
        self.grow_from_previous = Some(grow_from_previous);
    }

    /// Forbids exactly the listed cells for this stage.
    pub fn forbidden_points(&mut self, forbidden_points: Vec<PixelLoc>)
        ensures
            *final(self) == (GrowthImageStageBuilder {
                restricted_region: RestrictedRegion::Forbidden(forbidden_points),
                ..*old(self)
            }),
    {
        self.restricted_region = RestrictedRegion::Forbidden(forbidden_points);
    }

    /// Allows only the listed cells for this stage.
    pub fn allowed_points(&mut self, allowed_points: Vec<PixelLoc>)
        ensures
            *final(self) == (GrowthImageStageBuilder {
                restricted_region: RestrictedRegion::Allowed(allowed_points),
                ..*old(self)
            }),
    {
        self.restricted_region = RestrictedRegion::Allowed(allowed_points);
    }

    /// Cell pairs to connect as bidirectional portals for this stage.
    pub fn connected_points(&mut self, connected_points: Vec<(PixelLoc, PixelLoc)>)
        ensures
            *final(self) == (GrowthImageStageBuilder {
                connected_points,
                ..*old(self)
            }),
    {
        self.connected_points = connected_points;
    }
}

/// The bidirectional expansion of the portal pairs whose endpoints are
/// both valid on `t`: each kept pair contributes both directions, in
/// input order; pairs with an invalid endpoint are dropped.
pub open spec fn spec_portal_closure(
    t: Topology,
    pairs: Seq<(PixelLoc, PixelLoc)>,
) -> Seq<(PixelLoc, PixelLoc)>
    decreases pairs.len(),
{
    if pairs.len() == 0 {
        Seq::empty()
    } else {
        spec_portal_closure(t, pairs.drop_last()) + (
        if t.spec_valid(pairs.last().0) && t.spec_valid(pairs.last().1) {
            seq![(pairs.last().0, pairs.last().1), (pairs.last().1, pairs.last().0)]
        } else {
            Seq::empty()
        })
    }
}

/// How a built stage must relate to the configuration it came from:
/// palette from exactly the given colors, defaults resolved per the
/// seeding table, and the portal list the symmetric closure of the valid
/// input pairs.
pub open spec fn stage_matches_config(
    g: GrowthImage,
    sb: GrowthImageStageBuilder,
    s: int,
) -> bool {
    &&& g.stage_palette(s) == sb.palette_colors->0@.to_multiset()
    &&& g.stage_max_iter(s) == sb.max_iter
    &&& g.stage_grow_from_previous(s) == (match sb.grow_from_previous {
        Some(gr) => gr,
        None => true,
    })
    &&& g.stage_seed_points(s) == (match sb.selected_seed_points {
        Some(v) => v@,
        None => Seq::<PixelLoc>::empty(),
    })
    &&& g.stage_random_seed_count(s) == spec_resolved_random_seed_count(
        sb.num_random_seed_points,
        sb.selected_seed_points is Some,
        s == 0,
        sb.grow_from_previous,
    )
    &&& g.stage_region(s) == sb.restricted_region
    &&& g.stage_portal_pairs(s) == spec_portal_closure(g.topo(), sb.connected_points@)
}

/// The first configuration error among the stages, in stage order.
pub open spec fn spec_stages_error(sbs: Seq<GrowthImageStageBuilder>) -> Option<Error>
    decreases sbs.len(),
{
    if sbs.len() == 0 {
        None
    } else {
        match sbs.first().palette_colors {
            None => Some(Error::NoPaletteDefined),
            Some(colors) => if 2 * colors@.len() > usize::MAX {
                Some(Error::CanvasTooLarge)
            } else {
                spec_stages_error(sbs.drop_first())
            },
        }
    }
}

/// Whole-image configuration before it is checked and frozen.
pub struct GrowthImageBuilder {
    pub layers: Vec<RectangularArray>,
    pub epsilon_num: u32,
    pub epsilon_den: u32,
    pub stages: Vec<GrowthImageStageBuilder>,
    pub seed: Option<u64>,
}

impl GrowthImageBuilder {
    /// The configuration error that `build` reports, if any, in the
    /// order the checks run.
    pub open spec fn spec_build_error(self) -> Option<Error> {
        if self.stages@.len() == 0 {
            Some(Error::NoStagesDefined)
        } else if !Topology::layers_acceptable(self.layers@) {
            Some(Error::CanvasTooLarge)
        } else if prefix_len(self.layers@, self.layers@.len() as int) == 0 {
            Some(Error::NoLayersDefined)
        } else {
            spec_stages_error(self.stages@)
        }
    }

    pub fn new() -> (r: GrowthImageBuilder)
        ensures
            r.layers@.len() == 0,
            r.epsilon_num == 1,
            r.epsilon_den == 1,
            r.stages@.len() == 0,
            r.seed is None,
    {
        GrowthImageBuilder {
            layers: Vec::new(),
            epsilon_num: 1,
            epsilon_den: 1,
            stages: Vec::new(),
            seed: None,
        }
    }

    /// Appends one rectangular layer to the canvas.
    pub fn add_layer(&mut self, width: u32, height: u32)
        ensures
            final(self).layers@ == old(self).layers@.push(
                RectangularArray { width, height },
            ),
            final(self).epsilon_num == old(self).epsilon_num,
            final(self).epsilon_den == old(self).epsilon_den,
            final(self).stages == old(self).stages,
            final(self).seed == old(self).seed,
    {
        self.layers.push(RectangularArray { width, height });
    }

    /// Appends one fully configured stage.
    pub fn new_stage(&mut self, stage: GrowthImageStageBuilder)
        ensures
            final(self).stages@ == old(self).stages@.push(stage),
            final(self).layers == old(self).layers,
            final(self).epsilon_num == old(self).epsilon_num,
            final(self).epsilon_den == old(self).epsilon_den,
            final(self).seed == old(self).seed,
    {
        self.stages.push(stage);
    }

    /// Appends one stage that only sets a palette, keeping every other
    /// stage option at its default.
    pub fn palette(&mut self, colors: Vec<RGB>)
        ensures
            final(self).stages@.len() == old(self).stages@.len() + 1,
            final(self).stages@.last().palette_colors == Some(colors),
            final(self).layers == old(self).layers,
            final(self).epsilon_num == old(self).epsilon_num,
            final(self).epsilon_den == old(self).epsilon_den,
            final(self).seed == old(self).seed,
    {
        let mut stage = GrowthImageStageBuilder::new();
        stage.palette(colors);
        self.stages.push(stage);
    }

    /// The approximate-search relaxation, as the fraction
    /// `epsilon_num / epsilon_den`; zero means exact search.
    pub fn epsilon(&mut self, epsilon_num: u32, epsilon_den: u32)
        requires
            epsilon_den >= 1,
        ensures
            final(self).epsilon_num == epsilon_num,
            final(self).epsilon_den == epsilon_den,
            final(self).layers == old(self).layers,
            final(self).stages == old(self).stages,
            final(self).seed == old(self).seed,
    {
        self.epsilon_num = epsilon_num;
        self.epsilon_den = epsilon_den;
    }

    /// Seeds the random source so that the whole run is reproducible.
    pub fn seed(&mut self, seed: u64)
        ensures
            final(self).seed == Some(seed),
            final(self).layers == old(self).layers,
            final(self).stages == old(self).stages,
            final(self).epsilon_num == old(self).epsilon_num,
            final(self).epsilon_den == old(self).epsilon_den,
    {
        self.seed = Some(seed);
    }

    /// Checks the configuration and builds the orchestrator: rejects an
    /// empty stage list, an unaddressable or empty canvas, and stages
    /// without a palette, in that order.
    pub fn build(self) -> (r: Result<GrowthImage, Error>)
        requires
            self.epsilon_den >= 1,
        ensures
            match r {
                Ok(g) => {
                    &&& self.spec_build_error() is None
                    &&& g.wf()
                    &&& !g.done_spec()
                    &&& g.topo().layers@ == self.layers@
                    &&& g.pixels_view().len() == prefix_len(
                        self.layers@,
                        self.layers@.len() as int,
                    )
                    &&& forall|k: int| 0 <= k < g.pixels_view().len()
                        ==> (#[trigger] g.pixels_view()[k]) is None
                    &&& g.num_filled_spec() == 0
                    &&& g.stage_count() == self.stages@.len()
                    &&& forall|s: int| 0 <= s < self.stages@.len()
                        ==> stage_matches_config(g, #[trigger] self.stages@[s], s)
                },
                Err(e) => self.spec_build_error() == Some(e),
            },
    {
        if self.stages.len() == 0 {
            return Err(Error::NoStagesDefined);
        }
        let topology = match Topology::new(self.layers) {
            Ok(t) => t,
            Err(e) => {
                return Err(e);
            },
        };
        if topology.len() == 0 {
            return Err(Error::NoLayersDefined);
        }
        let rng = match self.seed {
            Some(seed) => RngSource::from_seed(seed),
            None => RngSource::from_entropy(),
        };
        let ghost sbs0 = self.stages@;
        let mut remaining = self.stages;
        let total_stages = remaining.len();
        let mut stages: Vec<GrowthImageStage> = Vec::new();
        let mut i: usize = 0;
        while remaining.len() > 0
            invariant
                topology.well_formed(),
                sbs0 == self.stages@,
                sbs0.len() != 0,
                topology.layers@ == self.layers@,
                Topology::layers_acceptable(self.layers@),
                prefix_len(self.layers@, self.layers@.len() as int) != 0,
                total_stages == sbs0.len(),
                i + remaining@.len() == sbs0.len(),
                remaining@ =~= sbs0.subrange(i as int, sbs0.len() as int),
                stages@.len() == i,
                spec_stages_error(sbs0) == spec_stages_error(remaining@),
                forall|s: int| 0 <= s < stages@.len()
                    ==> (#[trigger] stages@[s]).palette.wf(),
                forall|s: int| 0 <= s < stages@.len() ==> {
                    let sb = #[trigger] sbs0[s];
                    &&& sb.palette_colors is Some
                    &&& stages@[s].palette.live() == sb.palette_colors->0@.to_multiset()
                    &&& stages@[s].max_iter == sb.max_iter
                    &&& stages@[s].grow_from_previous == (match sb.grow_from_previous {
                        Some(gr) => gr,
                        None => true,
                    })
                    &&& stages@[s].selected_seed_points@ == (
                    match sb.selected_seed_points {
                        Some(v) => v@,
                        None => Seq::<PixelLoc>::empty(),
                    })
                    &&& stages@[s].num_random_seed_points
                        == spec_resolved_random_seed_count(
                        sb.num_random_seed_points,
                        sb.selected_seed_points is Some,
                        s == 0,
                        sb.grow_from_previous,
                    )
                    &&& stages@[s].restricted_region == sb.restricted_region
                    &&& stages@[s].portals@ == spec_portal_closure(
                        topology,
                        sb.connected_points@,
                    )
                },
            decreases remaining@.len(),
        {
            let ghost pre = remaining@;
            let sb = remaining.remove(0);
            proof {
                assert(pre.first() == sb);
                assert(pre.drop_first() =~= remaining@);
                assert(remaining@ =~= sbs0.subrange(i + 1, sbs0.len() as int));
            }
            let colors = match sb.palette_colors {
                Some(c) => c,
                None => {
                    proof {
                        assert(spec_stages_error(pre) == Some(Error::NoPaletteDefined));
                        assert(self.stages@.len() != 0);
                        assert(Topology::layers_acceptable(self.layers@));
                        assert(prefix_len(self.layers@, self.layers@.len() as int) != 0);
                        assert(self.spec_build_error() == Some(Error::NoPaletteDefined));
                    }
                    return Err(Error::NoPaletteDefined);
                },
            };
            if colors.len() > usize::MAX / 2 {
                proof {
                    assert(2 * colors@.len() > usize::MAX);
                    assert(spec_stages_error(pre) == Some(Error::CanvasTooLarge));
                    assert(self.spec_build_error() == Some(Error::CanvasTooLarge));
                }
                return Err(Error::CanvasTooLarge);
            }
            proof {
                assert(2 * colors@.len() <= usize::MAX);
                assert(spec_stages_error(pre) == spec_stages_error(remaining@));
            }
            let palette = KDTree::new(colors);
            let has_explicit_seeds = sb.selected_seed_points.is_some();
            let selected_seed_points = match sb.selected_seed_points {
                Some(points) => points,
                None => Vec::new(),
            };
            let num_random_seed_points = resolve_random_seed_count(
                sb.num_random_seed_points,
                has_explicit_seeds,
                i == 0,
                sb.grow_from_previous,
            );
            let grow_from_previous = match sb.grow_from_previous {
                Some(g) => g,
                None => true,
            };
            let mut portals: Vec<(PixelLoc, PixelLoc)> = Vec::new();
            let mut p: usize = 0;
            while p < sb.connected_points.len()
                invariant
                    p <= sb.connected_points@.len(),
                    topology.well_formed(),
                    portals@ == spec_portal_closure(
                        topology,
                        sb.connected_points@.subrange(0, p as int),
                    ),
                decreases sb.connected_points@.len() - p,
            {
                let ghost sub0 = sb.connected_points@.subrange(0, p as int);
                let ghost sub1 = sb.connected_points@.subrange(0, p + 1);
                proof {
                    assert(sub1.drop_last() =~= sub0);
                    assert(sub1.last() == sb.connected_points@[p as int]);
                }
                let (a, b) = sb.connected_points[p];
                if topology.is_valid(a) && topology.is_valid(b) {
                    portals.push((a, b));
                    portals.push((b, a));
                    proof {
                        assert(portals@ =~= spec_portal_closure(topology, sub0) + seq![
                            (a, b),
                            (b, a),
                        ]);
                    }
                } else {
                    proof {
                        assert(spec_portal_closure(topology, sub1) =~= spec_portal_closure(
                            topology,
                            sub0,
                        ));
                    }
                }
                p = p + 1;
            }
            proof {
                assert(sb.connected_points@.subrange(
                    0,
                    sb.connected_points@.len() as int,
                ) =~= sb.connected_points@);
            }
            stages.push(
                GrowthImageStage {
                    palette,
                    max_iter: sb.max_iter,
                    grow_from_previous,
                    selected_seed_points,
                    num_random_seed_points,
                    restricted_region: sb.restricted_region,
                    portals,
                },
            );
            i = i + 1;
        }
        Ok(GrowthImage::assemble(topology, stages, self.epsilon_num, self.epsilon_den, rng))
    }
}

} // verus!
