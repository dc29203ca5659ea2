//! The stages of a whole build, one after the other: the vectors are rotated, a codebook is trained
//! on them, and the graph is built over them, cut down to its degree limit and pruned again with
//! other thresholds. What the rotation makes of the vectors is an argument, and no later stage looks
//! into the codebook.
use vstd::prelude::*;
use crate::build::{BuildConfig, BuildMetadata, ChaCha8Rng};
use crate::build::delayed_prune;
use crate::build::delayed_prune::DelayedPruneController;
use crate::build::rng::RngView;
use crate::distance::DistanceKernel;
use crate::distance::single::{
    F32, ONE_BITS, ONE_POINT_FIVE_BITS, ONE_POINT_TWO_BITS, TWO_BITS,
};
use crate::graph::centroid;
use crate::graph::connection_laws;
use crate::graph::construction;
use crate::graph::construction::{StrategyChoice, VamanaBuildConfig};
use crate::graph::layered;
use crate::graph::neighbour_laws;
use crate::graph::points::Points;
use crate::graph::robust_prune::PruneStrategy;
use crate::graph::rp_tuning;
use crate::graph::rp_tuning::{AlphaVariant, RPTuning, RPTuningConfig};
use crate::graph::search;
use crate::graph::vamana;
use crate::graph::vamana::VamanaGraph;
use crate::memory::graph::CsrView;

verus! {

/// A stage of the build.
#[derive(Debug, Clone, Copy, PartialEq, Eq, Structural)]
pub enum PipelineStage {
    /// The vectors are there.
    LoadVectors,
    /// The vectors are rotated.
    OpqRotation,
    /// The codebook is trained.
    AvqCodebook,
    /// The graph is built.
    VamanaBuild,
    /// The graph is pruned by quantization errors.
    QuantAwarePrune,
    /// The graph is cut down to the degree limit.
    FinalPrune,
    /// The variants are there.
    RpTuning,
}

/// What is there between two stages.
pub struct PipelineState<'a> {
    /// The vectors, one after the other.
    pub vectors: &'a [F32],
    /// The dimension.
    pub dim: usize,
    /// The index.
    pub graph: Option<VamanaGraph>,
    /// The last stage that was done.
    pub stage: PipelineStage,
}

impl<'a> PipelineState<'a> {
    /// The vectors alone.
    pub fn from_vectors(vectors: &'a [F32], dim: usize) -> (s: Self)
        ensures
            s.vectors == vectors,
            s.dim == dim,
            s.graph is None,
            s.stage == PipelineStage::LoadVectors,
    {
        PipelineState { vectors, dim, graph: None, stage: PipelineStage::LoadVectors }
    }
}

/// What a whole build gives.
pub struct PipelineResult {
    /// The index.
    pub graph: VamanaGraph,
    /// The variants of its graph.
    pub alpha_variants: Vec<AlphaVariant>,
    /// The last stage that was done.
    pub final_stage: PipelineStage,
}

/// The settings that the graph is built with: one round, and the usual ones for all that a recorded
/// configuration does not say.
pub open spec fn graph_settings(config: BuildConfig) -> VamanaBuildConfig {
    VamanaBuildConfig {
        alpha: config.alpha,
        l_build: config.l_build,
        r_max: config.r_max,
        r_soft: config.r_soft,
        max_iterations: 1,
        ..VamanaBuildConfig::usual()
    }
}

/// The graph of a whole build.
pub open spec fn pipeline_graph<K: DistanceKernel>(
    kernel: &K,
    vectors: &[F32],
    dim: usize,
    config: BuildConfig,
) -> CsrView {
    let n = vectors@.len() / dim as nat;
    let settings = graph_settings(config);
    let data = Points { kernel, vectors, dim };
    let choice = StrategyChoice { data: &data, n: n as usize, config: &settings };
    construction::built(
        data,
        choice,
        RngView::fresh(config.rng_seed),
        centroid::medoid(kernel, vectors@, dim as nat, n),
        n,
        settings,
    ).0
}

/// The index of a whole build. No node is above the degree limit.
pub open spec fn is_pipeline_index<K: DistanceKernel, F: Fn(&BuildMetadata) -> Vec<u8>>(
    g: VamanaGraph,
    kernel: &K,
    vectors: &[F32],
    dim: usize,
    config: BuildConfig,
    levels: Seq<u8>,
    timestamp: u64,
    to_text: F,
) -> bool {
    let n = vectors@.len() / dim as nat;
    let entry = centroid::medoid(kernel, vectors@, dim as nat, n);
    &&& g.wf()
    &&& g.free_slots_marked()
    &&& g@.n == n
    &&& g@.dim == dim
    &&& g@.entry_point == entry
    &&& g@.graph == pipeline_graph(kernel, vectors, dim, config)
    &&& construction::proper(g@.graph, n)
    &&& forall|i: int| 0 <= i < n ==> (#[trigger] g@.graph.all(i)).len() <= config.r_max
    &&& vamana::holds_record(g@, to_text, n as usize, dim, timestamp)
    &&& g@.layers == (if n > 0 {
        Some(
            layered::layers_of(
                Points { kernel, vectors, dim },
                entry,
                levels,
                config.r_max / 2,
            ),
        )
    } else {
        None
    })
}

/// The variants of a whole build: one for each of the usual thresholds.
pub open spec fn are_pipeline_variants<K: DistanceKernel>(
    variants: Seq<AlphaVariant>,
    g: VamanaGraph,
    kernel: &K,
    vectors: &[F32],
    dim: usize,
    config: BuildConfig,
) -> bool {
    let alphas = rp_tuning::usual_alphas();
    &&& variants.len() == alphas.len()
    &&& forall|i: int|
        0 <= i < variants.len() ==> {
            &&& (#[trigger] variants[i]).alpha == alphas[i]
            &&& variants[i].entry_point == g@.entry_point
            &&& variants[i].storage.wf()
            &&& variants[i].storage.free_slots_marked()
            &&& variants[i].storage@ == rp_tuning::variant_view(
                Points { kernel, vectors, dim },
                g@.graph.lists,
                alphas[i],
                config.r_max,
            )
        }
}

/// The graph of a whole build has the threshold, the width and the limits that the configuration
/// records, in one round, and what it does not record is as usual: neighbours are filled up to the
/// limit, and chosen by `RobustPrune`.
pub proof fn law_recorded_settings_are_used(config: BuildConfig)
    ensures
        graph_settings(config).alpha == config.alpha,
        graph_settings(config).l_build == config.l_build,
        graph_settings(config).r_max == config.r_max,
        graph_settings(config).r_soft == config.r_soft,
        graph_settings(config).max_iterations == 1,
        graph_settings(config).saturate,
        graph_settings(config).prune_strategy == PruneStrategy::RobustPrune,
{
}

/// The graph of a whole build is the one that a build from the recorded seed and from the medoid gives,
/// in one round over the vectors with the recorded settings.
pub proof fn law_whole_builds_start_from_the_seed<
    K: DistanceKernel,
    F: Fn(&BuildMetadata) -> Vec<u8>,
>(
    g: VamanaGraph,
    kernel: &K,
    vectors: &[F32],
    dim: usize,
    config: BuildConfig,
    settings: VamanaBuildConfig,
    levels: Seq<u8>,
    timestamp: u64,
    to_text: F,
)
    requires
        is_pipeline_index(g, kernel, vectors, dim, config, levels, timestamp, to_text),
        settings.alpha == config.alpha,
        settings.l_build == config.l_build,
        settings.r_max == config.r_max,
        settings.r_soft == config.r_soft,
        settings.max_iterations == 1,
        settings.saturate,
        settings.enable_layered_nav == VamanaBuildConfig::usual().enable_layered_nav,
        settings.nav_m == VamanaBuildConfig::usual().nav_m,
        settings.prune_strategy == PruneStrategy::RobustPrune,
    ensures
        ({
            let n = vectors@.len() / dim as nat;
            let data = Points { kernel, vectors, dim };
            let choice = StrategyChoice { data: &data, n: n as usize, config: &settings };
            let medoid = centroid::medoid(kernel, vectors@, dim as nat, n);
            &&& g@.entry_point == medoid
            &&& g@.graph == construction::built(
                data,
                choice,
                RngView::fresh(config.rng_seed),
                medoid,
                n,
                settings,
            ).0
        }),
{
    assert(settings == graph_settings(config));
}

/// The variants of a whole build are the graph pruned again at the thresholds 1, 1.2, 1.5 and 2, in
/// this order, within the recorded limit: whatever a node leaves out of its neighbours is hidden at the
/// threshold of the variant by one that it keeps.
pub proof fn law_variants_have_the_usual_thresholds<K: DistanceKernel>(
    variants: Seq<AlphaVariant>,
    g: VamanaGraph,
    kernel: &K,
    vectors: &[F32],
    dim: usize,
    config: BuildConfig,
    i: int,
    node: int,
)
    requires
        are_pipeline_variants(variants, g, kernel, vectors, dim, config),
        0 <= i < variants.len(),
        0 <= node < g@.graph.lists.len() <= u32::MAX,
    ensures
        variants.len() == 4,
        ({
            let alpha = if i == 0 {
                F32(ONE_BITS)
            } else if i == 1 {
                F32(ONE_POINT_TWO_BITS)
            } else if i == 2 {
                F32(ONE_POINT_FIVE_BITS)
            } else {
                F32(TWO_BITS)
            };
            &&& variants[i].alpha == alpha
            &&& neighbour_laws::robustly_pruned(
                Points { kernel, vectors, dim },
                node as u32,
                g@.graph.lists[node],
                alpha,
                config.r_max as nat,
                false,
                variants[i].storage@.lists[node],
            )
        }),
{
    assert(variants[i].alpha == rp_tuning::usual_alphas()[i]);
    connection_laws::law_variants_are_pruned_at_their_threshold(
        Points { kernel, vectors, dim },
        g@.graph.lists,
        variants[i].alpha,
        config.r_max,
        node,
    );
}

/// A graph without a node above the limit is not cut down.
pub proof fn lemma_nothing_to_truncate(view: CsrView, r_max: usize, i: int)
    requires
        forall|k: int| 0 <= k < i ==> (#[trigger] view.all(k)).len() <= r_max,
    ensures
        delayed_prune::truncated(view, r_max, i) == view,
    decreases i,
{
    if i > 0 {
        lemma_nothing_to_truncate(view, r_max, i - 1);
        assert(view.all(i - 1).len() <= r_max);
    }
}

/// A whole build.
pub struct BuildPipeline {
    config: BuildConfig,
}

impl BuildPipeline {
    /// The settings.
    pub closed spec fn settings(self) -> BuildConfig {
        self.config
    }

    /// A build with these settings.
    pub fn new(config: BuildConfig) -> (p: Self)
        ensures
            p.settings() == config,
    {
        BuildPipeline { config }
    }

    /// Puts the rotated vectors in the place of the vectors.
    fn opq_rotation<'a>(&self, state: PipelineState<'a>, rotated: &'a [F32]) -> (s: PipelineState<
        'a,
    >)
        requires
            state.stage == PipelineStage::LoadVectors,
            rotated@.len() == state.vectors@.len(),
        ensures
            s.vectors == rotated,
            s.dim == state.dim,
            s.graph == state.graph,
            s.stage == PipelineStage::OpqRotation,
    {
        PipelineState {
            vectors: rotated,
            dim: state.dim,
            graph: state.graph,
            stage: PipelineStage::OpqRotation,
        }
    }

    /// The place of the training of a codebook, which leaves the vectors as they are.
    fn avq_codebook_train<'a>(&self, state: PipelineState<'a>) -> (s: PipelineState<'a>)
        requires
            state.stage == PipelineStage::OpqRotation,
        ensures
            s == (PipelineState { stage: PipelineStage::AvqCodebook, ..state }),
    {
        PipelineState {
            vectors: state.vectors,
            dim: state.dim,
            graph: state.graph,
            stage: PipelineStage::AvqCodebook,
        }
    }

    /// Builds the graph.
    fn vamana_build<'a, K: DistanceKernel, F: Fn(&BuildMetadata) -> Vec<u8>>(
        &self,
        kernel: &K,
        state: PipelineState<'a>,
        levels: &[u8],
        timestamp: u64,
        to_text: F,
    ) -> (s: PipelineState<'a>)
        requires
            vamana::takes_records(to_text),
            state.stage == PipelineStage::AvqCodebook,
            state.dim > 0,
            state.vectors@.len() % state.dim as nat == 0,
            graph_settings(self.settings()).usable(state.vectors@.len() / state.dim as nat),
            levels@.len() == state.vectors@.len() / state.dim as nat,
        ensures
            s.vectors == state.vectors,
            s.dim == state.dim,
            s.stage == PipelineStage::VamanaBuild,
            s.graph matches Some(g) && is_pipeline_index(
                g,
                kernel,
                state.vectors,
                state.dim,
                self.settings(),
                levels@,
                timestamp,
                to_text,
            ),
    {
        let mut rng = ChaCha8Rng::seed_from(self.config.rng_seed);
        let mut settings = VamanaBuildConfig::default();
        settings.alpha = self.config.alpha;
        settings.l_build = self.config.l_build;
        settings.r_max = self.config.r_max;
        settings.r_soft = self.config.r_soft;
        settings.max_iterations = 1;
        assert(settings == graph_settings(self.config));
        let graph = VamanaGraph::build(
            kernel,
            state.vectors,
            state.dim,
            &settings,
            &mut rng,
            levels,
            timestamp,
            to_text,
        );
        PipelineState {
            vectors: state.vectors,
            dim: state.dim,
            graph: Some(graph),
            stage: PipelineStage::VamanaBuild,
        }
    }

    /// The place of the pruning by quantization errors. The variants take its part: nothing is
    /// pruned here.
    fn quant_aware_prune<'a>(&self, state: PipelineState<'a>) -> (s: PipelineState<'a>)
        requires
            state.stage == PipelineStage::VamanaBuild,
        ensures
            s == (PipelineState { stage: PipelineStage::QuantAwarePrune, ..state }),
    {
        PipelineState {
            vectors: state.vectors,
            dim: state.dim,
            graph: state.graph,
            stage: PipelineStage::QuantAwarePrune,
        }
    }

    /// Cuts every node down to the degree limit.
    fn final_prune<'a>(&self, state: PipelineState<'a>) -> (s: PipelineState<'a>)
        requires
            state.stage == PipelineStage::QuantAwarePrune,
            state.graph matches Some(g) ==> g.wf() && g.free_slots_marked(),
        ensures
            s.vectors == state.vectors,
            s.dim == state.dim,
            s.stage == PipelineStage::FinalPrune,
            match state.graph {
                Some(g) => s.graph matches Some(h) && h.wf() && h.free_slots_marked() && h@.graph
                    == delayed_prune::truncated(
                    g@.graph,
                    self.settings().r_max,
                    g@.n as int,
                ) && h@.n == g@.n && h@.dim == g@.dim && h@.entry_point == g@.entry_point
                    && h@.metadata == g@.metadata && h@.metadata_text == g@.metadata_text
                    && h@.layers == g@.layers,
                None => s.graph is None,
            },
    {
        let PipelineState { vectors, dim, graph, .. } = state;
        let stage = PipelineStage::FinalPrune;
        match graph {
            Some(g) => {
                let mut h = g;
                let mut controller = DelayedPruneController::new(self.config.r_max);
                proof {
                    h.lemma_parts();
                    h.held().lemma_shape();
                    delayed_prune::law_final_prune_truncates(
                        h@.graph,
                        self.config.r_max,
                        h@.n as int,
                    );
                }
                controller.final_prune(h.storage_mut());
                proof {
                    h.lemma_parts();
                }
                PipelineState { vectors, dim, graph: Some(h), stage }
            },
            None => PipelineState { vectors, dim, graph: None, stage },
        }
    }

    /// The variants for four thresholds, none where there is no index.
    fn rp_tuning<'a, K: DistanceKernel>(
        &self,
        kernel: &K,
        state: &PipelineState<'a>,
    ) -> (variants: Vec<AlphaVariant>)
        requires
            state.stage == PipelineStage::FinalPrune,
            state.graph matches Some(g) ==> {
                &&& g.wf()
                &&& search::covers(state.vectors@, state.dim as int, g@.n as nat)
                &&& search::closed_below(g@.graph.lists, g@.n as nat)
                &&& self.settings().r_max <= u16::MAX
                &&& g@.n * self.settings().r_max <= usize::MAX
            },
        ensures
            match state.graph {
                Some(g) => are_pipeline_variants(
                    variants@,
                    g,
                    kernel,
                    state.vectors,
                    state.dim,
                    self.settings(),
                ),
                None => variants@.len() == 0,
            },
    {
        match &state.graph {
            Some(g) => {
                let mut config = RPTuningConfig::default();
                config.r_max = self.config.r_max;
                RPTuning::generate_variants(kernel, g, state.vectors, state.dim, &config)
            },
            None => Vec::new(),
        }
    }

    /// Runs all stages. `rotated` is what the rotation makes of the vectors; `levels` are the levels
    /// of the nodes, drawn at random; `timestamp` is recorded as the time of the build, and `to_text`
    /// makes of the record the text that the index file holds.
    pub fn run<K: DistanceKernel, F: Fn(&BuildMetadata) -> Vec<u8>>(
        &self,
        kernel: &K,
        vectors: &[F32],
        rotated: &[F32],
        dim: usize,
        levels: &[u8],
        timestamp: u64,
        to_text: F,
    ) -> (r: PipelineResult)
        requires
            vamana::takes_records(to_text),
            dim > 0,
            vectors@.len() % dim as nat == 0,
            rotated@.len() == vectors@.len(),
            graph_settings(self.settings()).usable(vectors@.len() / dim as nat),
            levels@.len() == vectors@.len() / dim as nat,
        ensures
            is_pipeline_index(
                r.graph,
                kernel,
                rotated,
                dim,
                self.settings(),
                levels@,
                timestamp,
                to_text,
            ),
            are_pipeline_variants(
                r.alpha_variants@,
                r.graph,
                kernel,
                rotated,
                dim,
                self.settings(),
            ),
            r.final_stage == PipelineStage::RpTuning,
    {
        let mut state = PipelineState::from_vectors(vectors, dim);
        state = self.opq_rotation(state, rotated);
        state = self.avq_codebook_train(state);
        state = self.vamana_build(kernel, state, levels, timestamp, to_text);
        state = self.quant_aware_prune(state);
        proof {
            let g = state.graph->0;
            lemma_nothing_to_truncate(g@.graph, self.config.r_max, g@.n as int);
        }
        state = self.final_prune(state);
        proof {
            let g = state.graph->0;
            construction::lemma_blocks_closed(g@.graph, g@.n as nat);
            vamana::lemma_exact_division(rotated@.len(), dim as nat);
        }
        let variants = self.rp_tuning(kernel, &state);
        PipelineResult {
            graph: state.graph.unwrap(),
            alpha_variants: variants,
            final_stage: PipelineStage::RpTuning,
        }
    }
}

} // verus!
