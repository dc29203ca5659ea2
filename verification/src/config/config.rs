//! The settings, and merging them from all places that they come from: what is built in, a file, the
//! command line, the environment and what the program was built with, each overriding those before.
use vstd::prelude::*;
use crate::config::rules;
use crate::config::rules::{ConflictError, RuleEngine, StandardCheck};
use crate::config::text;
use crate::config::text::{parse_usize, same_text};
use crate::distance::single::{F32, ONE_POINT_FIVE_BITS, ONE_POINT_TWO_BITS, THREE_TENTHS_BITS};

verus! {

/// Where a setting comes from, the weakest first.
#[derive(Debug, Clone, Copy, PartialEq, Eq, Structural)]
pub enum ConfigSource {
    /// Built in.
    Default,
    /// A file.
    Toml,
    /// The command line.
    Cli,
    /// The environment.
    Env,
    /// What the program was built with.
    Feature,
}

/// The settings.
#[derive(Debug, Clone)]
pub struct Config {
    /// The distance.
    pub distance: String,
    /// How many neighbours a node has in a layer.
    pub m: usize,
    /// How wide the searches of a build are.
    pub ef_construction: usize,
    /// The occlusion threshold.
    pub alpha: F32,
    /// Which kernel computes distances.
    pub kernel: String,
    /// How vectors are quantized.
    pub pq_mode: String,
    /// How far ahead vectors are fetched.
    pub prefetch_window: usize,
    /// The weight of the quantization error.
    pub beta: F32,
    /// How far a node may grow past the degree limit during a build.
    pub r_soft_ratio: F32,
    /// The number of candidates above which distances are computed as a matrix product.
    pub gemm_threshold: usize,
    /// Whether 512-bit instructions are used.
    pub avx512: bool,
    /// Whether queries are answered in batches.
    pub batch_mode: bool,
    /// Whether vectors are quantized with an eye to retrieval.
    pub avq: bool,
    /// Whether distances are computed as a matrix product.
    pub gemm_path: bool,
    /// How many candidates there are.
    pub candidate_count: usize,
    /// The dimension.
    pub dim: usize,
    /// How many answers are returned.
    pub k: usize,
    /// How many candidates are reranked.
    pub top_n: usize,
    /// The size of a codebook.
    pub codebook_k: usize,
    /// The dimension of a subspace.
    pub sub_dim: usize,
    /// The weight of the reconstruction loss.
    pub avq_alpha: F32,
}

/// The settings as plain values.
#[verifier::ext_equal]
pub struct ConfigView {
    /// The distance.
    pub distance: Seq<char>,
    /// How many neighbours a node has in a layer.
    pub m: usize,
    /// How wide the searches of a build are.
    pub ef_construction: usize,
    /// The occlusion threshold.
    pub alpha: F32,
    /// Which kernel computes distances.
    pub kernel: Seq<char>,
    /// How vectors are quantized.
    pub pq_mode: Seq<char>,
    /// How far ahead vectors are fetched.
    pub prefetch_window: usize,
    /// The weight of the quantization error.
    pub beta: F32,
    /// How far a node may grow past the degree limit during a build.
    pub r_soft_ratio: F32,
    /// The number of candidates above which distances are computed as a matrix product.
    pub gemm_threshold: usize,
    /// Whether 512-bit instructions are used.
    pub avx512: bool,
    /// Whether queries are answered in batches.
    pub batch_mode: bool,
    /// Whether vectors are quantized with an eye to retrieval.
    pub avq: bool,
    /// Whether distances are computed as a matrix product.
    pub gemm_path: bool,
    /// How many candidates there are.
    pub candidate_count: usize,
    /// The dimension.
    pub dim: usize,
    /// How many answers are returned.
    pub k: usize,
    /// How many candidates are reranked.
    pub top_n: usize,
    /// The size of a codebook.
    pub codebook_k: usize,
    /// The dimension of a subspace.
    pub sub_dim: usize,
    /// The weight of the reconstruction loss.
    pub avq_alpha: F32,
}

impl View for Config {
    type V = ConfigView;

    open spec fn view(&self) -> ConfigView {
        ConfigView {
            distance: self.distance@,
            m: self.m,
            ef_construction: self.ef_construction,
            alpha: self.alpha,
            kernel: self.kernel@,
            pq_mode: self.pq_mode@,
            prefetch_window: self.prefetch_window,
            beta: self.beta,
            r_soft_ratio: self.r_soft_ratio,
            gemm_threshold: self.gemm_threshold,
            avx512: self.avx512,
            batch_mode: self.batch_mode,
            avq: self.avq,
            gemm_path: self.gemm_path,
            candidate_count: self.candidate_count,
            dim: self.dim,
            k: self.k,
            top_n: self.top_n,
            codebook_k: self.codebook_k,
            sub_dim: self.sub_dim,
            avq_alpha: self.avq_alpha,
        }
    }
}

impl ConfigView {
    /// What is built in.
    pub open spec fn built_in() -> ConfigView {
        ConfigView {
            distance: "l2"@,
            m: 32,
            ef_construction: 200,
            alpha: F32(ONE_POINT_TWO_BITS),
            kernel: "auto"@,
            pq_mode: "avq"@,
            prefetch_window: 4,
            beta: F32(THREE_TENTHS_BITS),
            r_soft_ratio: F32(ONE_POINT_FIVE_BITS),
            gemm_threshold: 8,
            avx512: false,
            batch_mode: false,
            avq: false,
            gemm_path: false,
            candidate_count: 0,
            dim: 128,
            k: 10,
            top_n: 100,
            codebook_k: 256,
            sub_dim: 8,
            avq_alpha: F32(THREE_TENTHS_BITS),
        }
    }

    /// The settings overridden by the command line, which has no say in what depends on how the
    /// program was built.
    pub open spec fn with_cli(self, cli: ConfigView) -> ConfigView {
        ConfigView { avx512: self.avx512, batch_mode: self.batch_mode, ..cli }
    }

    /// The settings overridden by the environment.
    pub open spec fn with_env(self, env: EnvView) -> ConfigView {
        ConfigView {
            distance: text_or(env.distance, self.distance),
            m: size_or(env.m, self.m),
            ef_construction: size_or(env.ef_construction, self.ef_construction),
            alpha: number_or(env.alpha, self.alpha),
            kernel: text_or(env.kernel, self.kernel),
            pq_mode: text_or(env.pq_mode, self.pq_mode),
            prefetch_window: size_or(env.prefetch_window, self.prefetch_window),
            beta: number_or(env.beta, self.beta),
            r_soft_ratio: number_or(env.r_soft_ratio, self.r_soft_ratio),
            gemm_threshold: size_or(env.gemm_threshold, self.gemm_threshold),
            avx512: switch_or(env.avx512, self.avx512),
            batch_mode: switch_or(env.batch_mode, self.batch_mode),
            avq: switch_or(env.avq, self.avq),
            gemm_path: switch_or(env.gemm_path, self.gemm_path),
            candidate_count: size_or(env.candidate_count, self.candidate_count),
            dim: size_or(env.dim, self.dim),
            k: size_or(env.k, self.k),
            top_n: size_or(env.top_n, self.top_n),
            codebook_k: size_or(env.codebook_k, self.codebook_k),
            sub_dim: size_or(env.sub_dim, self.sub_dim),
            avq_alpha: number_or(env.avq_alpha, self.avq_alpha),
        }
    }

    /// The settings overridden by what the program was built with.
    pub open spec fn with_features(self, batch_mode: bool, avx512: bool) -> ConfigView {
        ConfigView {
            batch_mode: self.batch_mode || batch_mode,
            avx512: self.avx512 || avx512,
            ..self
        }
    }
}

/// A text of the environment, where there is one.
pub open spec fn text_or(v: Option<Seq<char>>, old_value: Seq<char>) -> Seq<char> {
    match v {
        Some(x) => x,
        None => old_value,
    }
}

/// A size of the environment, where there is one that can be read.
pub open spec fn size_or(v: Option<Seq<char>>, old_value: usize) -> usize {
    match v {
        Some(x) => match text::size_of_text(x) {
            Some(n) => n,
            None => old_value,
        },
        None => old_value,
    }
}

/// A number of the environment, where there is one that can be read.
pub open spec fn number_or(v: Option<F32>, old_value: F32) -> F32 {
    match v {
        Some(x) => x,
        None => old_value,
    }
}

/// A switch of the environment, where there is one: on for "1" and "true", off for all else.
pub open spec fn switch_or(v: Option<Seq<char>>, old_value: bool) -> bool {
    match v {
        Some(x) => x == "1"@ || x == "true"@,
        None => old_value,
    }
}

/// What the environment says: texts as they stand, numbers with a fraction as they were read.
#[derive(Debug, Clone)]
pub struct EnvVars {
    /// `RAVEN_DISTANCE`.
    pub distance: Option<String>,
    /// `RAVEN_M`.
    pub m: Option<String>,
    /// `RAVEN_EF_CONSTRUCTION`.
    pub ef_construction: Option<String>,
    /// `RAVEN_ALPHA`.
    pub alpha: Option<F32>,
    /// `RAVEN_KERNEL`.
    pub kernel: Option<String>,
    /// `RAVEN_PQ_MODE`.
    pub pq_mode: Option<String>,
    /// `RAVEN_PREFETCH_WINDOW`.
    pub prefetch_window: Option<String>,
    /// `RAVEN_BETA`.
    pub beta: Option<F32>,
    /// `RAVEN_R_SOFT_RATIO`.
    pub r_soft_ratio: Option<F32>,
    /// `RAVEN_GEMM_THRESHOLD`.
    pub gemm_threshold: Option<String>,
    /// `RAVEN_AVX512`.
    pub avx512: Option<String>,
    /// `RAVEN_BATCH_MODE`.
    pub batch_mode: Option<String>,
    /// `RAVEN_AVQ`.
    pub avq: Option<String>,
    /// `RAVEN_GEMM_PATH`.
    pub gemm_path: Option<String>,
    /// `RAVEN_CANDIDATE_COUNT`.
    pub candidate_count: Option<String>,
    /// `RAVEN_DIM`.
    pub dim: Option<String>,
    /// `RAVEN_K`.
    pub k: Option<String>,
    /// `RAVEN_TOP_N`.
    pub top_n: Option<String>,
    /// `RAVEN_CODEBOOK_K`.
    pub codebook_k: Option<String>,
    /// `RAVEN_SUB_DIM`.
    pub sub_dim: Option<String>,
    /// `RAVEN_AVQ_ALPHA`.
    pub avq_alpha: Option<F32>,
}

impl Default for EnvVars {
    /// Nothing is set.
    fn default() -> (e: Self)
        ensures
            e == (EnvVars {
                distance: None,
                m: None,
                ef_construction: None,
                alpha: None,
                kernel: None,
                pq_mode: None,
                prefetch_window: None,
                beta: None,
                r_soft_ratio: None,
                gemm_threshold: None,
                avx512: None,
                batch_mode: None,
                avq: None,
                gemm_path: None,
                candidate_count: None,
                dim: None,
                k: None,
                top_n: None,
                codebook_k: None,
                sub_dim: None,
                avq_alpha: None,
            }),
    {
        EnvVars {
            distance: None,
            m: None,
            ef_construction: None,
            alpha: None,
            kernel: None,
            pq_mode: None,
            prefetch_window: None,
            beta: None,
            r_soft_ratio: None,
            gemm_threshold: None,
            avx512: None,
            batch_mode: None,
            avq: None,
            gemm_path: None,
            candidate_count: None,
            dim: None,
            k: None,
            top_n: None,
            codebook_k: None,
            sub_dim: None,
            avq_alpha: None,
        }
    }
}

/// What the environment says, as plain values.
pub struct EnvView {
    /// `RAVEN_DISTANCE`.
    pub distance: Option<Seq<char>>,
    /// `RAVEN_M`.
    pub m: Option<Seq<char>>,
    /// `RAVEN_EF_CONSTRUCTION`.
    pub ef_construction: Option<Seq<char>>,
    /// `RAVEN_ALPHA`.
    pub alpha: Option<F32>,
    /// `RAVEN_KERNEL`.
    pub kernel: Option<Seq<char>>,
    /// `RAVEN_PQ_MODE`.
    pub pq_mode: Option<Seq<char>>,
    /// `RAVEN_PREFETCH_WINDOW`.
    pub prefetch_window: Option<Seq<char>>,
    /// `RAVEN_BETA`.
    pub beta: Option<F32>,
    /// `RAVEN_R_SOFT_RATIO`.
    pub r_soft_ratio: Option<F32>,
    /// `RAVEN_GEMM_THRESHOLD`.
    pub gemm_threshold: Option<Seq<char>>,
    /// `RAVEN_AVX512`.
    pub avx512: Option<Seq<char>>,
    /// `RAVEN_BATCH_MODE`.
    pub batch_mode: Option<Seq<char>>,
    /// `RAVEN_AVQ`.
    pub avq: Option<Seq<char>>,
    /// `RAVEN_GEMM_PATH`.
    pub gemm_path: Option<Seq<char>>,
    /// `RAVEN_CANDIDATE_COUNT`.
    pub candidate_count: Option<Seq<char>>,
    /// `RAVEN_DIM`.
    pub dim: Option<Seq<char>>,
    /// `RAVEN_K`.
    pub k: Option<Seq<char>>,
    /// `RAVEN_TOP_N`.
    pub top_n: Option<Seq<char>>,
    /// `RAVEN_CODEBOOK_K`.
    pub codebook_k: Option<Seq<char>>,
    /// `RAVEN_SUB_DIM`.
    pub sub_dim: Option<Seq<char>>,
    /// `RAVEN_AVQ_ALPHA`.
    pub avq_alpha: Option<F32>,
}

/// A text that may be there, as a plain value.
pub open spec fn maybe_text(v: Option<String>) -> Option<Seq<char>> {
    match v {
        Some(s) => Some(s@),
        None => None,
    }
}

impl View for EnvVars {
    type V = EnvView;

    open spec fn view(&self) -> EnvView {
        EnvView {
            distance: maybe_text(self.distance),
            m: maybe_text(self.m),
            ef_construction: maybe_text(self.ef_construction),
            alpha: self.alpha,
            kernel: maybe_text(self.kernel),
            pq_mode: maybe_text(self.pq_mode),
            prefetch_window: maybe_text(self.prefetch_window),
            beta: self.beta,
            r_soft_ratio: self.r_soft_ratio,
            gemm_threshold: maybe_text(self.gemm_threshold),
            avx512: maybe_text(self.avx512),
            batch_mode: maybe_text(self.batch_mode),
            avq: maybe_text(self.avq),
            gemm_path: maybe_text(self.gemm_path),
            candidate_count: maybe_text(self.candidate_count),
            dim: maybe_text(self.dim),
            k: maybe_text(self.k),
            top_n: maybe_text(self.top_n),
            codebook_k: maybe_text(self.codebook_k),
            sub_dim: maybe_text(self.sub_dim),
            avq_alpha: self.avq_alpha,
        }
    }
}

fn pick_text(v: &Option<String>, old_value: &String) -> (s: String)
    ensures
        s@ == text_or(maybe_text(*v), old_value@),
{
    match v {
        Some(x) => x.clone(),
        None => old_value.clone(),
    }
}

fn pick_size(v: &Option<String>, old_value: usize) -> (n: usize)
    ensures
        n == size_or(maybe_text(*v), old_value),
{
    match v {
        Some(x) => match parse_usize(x.as_str()) {
            Some(n) => n,
            None => old_value,
        },
        None => old_value,
    }
}

fn pick_number(v: Option<F32>, old_value: F32) -> (x: F32)
    ensures
        x == number_or(v, old_value),
{
    match v {
        Some(x) => x,
        None => old_value,
    }
}

fn pick_switch(v: &Option<String>, old_value: bool) -> (b: bool)
    ensures
        b == switch_or(maybe_text(*v), old_value),
{
    match v {
        Some(x) => same_text(x.as_str(), "1") || same_text(x.as_str(), "true"),
        None => old_value,
    }
}

impl Default for Config {
    fn default() -> (c: Self)
        ensures
            c@ == ConfigView::built_in(),
    {
        Config {
            distance: "l2".to_owned(),
            m: 32,
            ef_construction: 200,
            alpha: F32(ONE_POINT_TWO_BITS),
            kernel: "auto".to_owned(),
            pq_mode: "avq".to_owned(),
            prefetch_window: 4,
            beta: F32(THREE_TENTHS_BITS),
            r_soft_ratio: F32(ONE_POINT_FIVE_BITS),
            gemm_threshold: 8,
            avx512: false,
            batch_mode: false,
            avq: false,
            gemm_path: false,
            candidate_count: 0,
            dim: 128,
            k: 10,
            top_n: 100,
            codebook_k: 256,
            sub_dim: 8,
            avq_alpha: F32(THREE_TENTHS_BITS),
        }
    }
}

impl Config {
    /// Overrides the settings by the environment.
    pub fn apply_env(&mut self, env: &EnvVars)
        ensures
            final(self)@ == old(self)@.with_env(env@),
    {
        self.distance = pick_text(&env.distance, &self.distance);
        self.m = pick_size(&env.m, self.m);
        self.ef_construction = pick_size(&env.ef_construction, self.ef_construction);
        self.alpha = pick_number(env.alpha, self.alpha);
        self.kernel = pick_text(&env.kernel, &self.kernel);
        self.pq_mode = pick_text(&env.pq_mode, &self.pq_mode);
        self.prefetch_window = pick_size(&env.prefetch_window, self.prefetch_window);
        self.beta = pick_number(env.beta, self.beta);
        self.r_soft_ratio = pick_number(env.r_soft_ratio, self.r_soft_ratio);
        self.gemm_threshold = pick_size(&env.gemm_threshold, self.gemm_threshold);
        self.avx512 = pick_switch(&env.avx512, self.avx512);
        self.batch_mode = pick_switch(&env.batch_mode, self.batch_mode);
        self.avq = pick_switch(&env.avq, self.avq);
        self.gemm_path = pick_switch(&env.gemm_path, self.gemm_path);
        self.candidate_count = pick_size(&env.candidate_count, self.candidate_count);
        self.dim = pick_size(&env.dim, self.dim);
        self.k = pick_size(&env.k, self.k);
        self.top_n = pick_size(&env.top_n, self.top_n);
        self.codebook_k = pick_size(&env.codebook_k, self.codebook_k);
        self.sub_dim = pick_size(&env.sub_dim, self.sub_dim);
        self.avq_alpha = pick_number(env.avq_alpha, self.avq_alpha);
    }

    /// Overrides the settings by what the program was built with.
    pub fn apply_feature_flags(&mut self, batch_mode: bool, avx512: bool)
        ensures
            final(self)@ == old(self)@.with_features(batch_mode, avx512),
    {
        if batch_mode {
            self.batch_mode = true;
        }
        if avx512 {
            self.avx512 = true;
        }
    }
}

/// The settings of all places, merged: a file replaces what is built in.
pub open spec fn merged(
    file: Option<ConfigView>,
    cli: Option<ConfigView>,
    env: Option<EnvView>,
    batch_mode: bool,
    avx512: bool,
) -> ConfigView {
    let base = match file {
        Some(f) => f,
        None => ConfigView::built_in(),
    };
    let with_cli = match cli {
        Some(c) => base.with_cli(c),
        None => base,
    };
    let with_env = match env {
        Some(e) => with_cli.with_env(e),
        None => with_cli,
    };
    with_env.with_features(batch_mode, avx512)
}

/// The settings that a file holds, where there is one that was read.
pub open spec fn file_config(file: Option<Result<Config, String>>) -> Option<ConfigView> {
    match file {
        Some(Ok(c)) => Some(c@),
        _ => None,
    }
}

/// Merges the settings of all places and checks what comes out. `file` is what was read of a file,
/// or why it could not be read; `batch_mode` and `avx512` say what the program was built with.
pub fn merge_config(
    file: Option<Result<Config, String>>,
    cli: Option<&Config>,
    env: Option<&EnvVars>,
    batch_mode: bool,
    avx512: bool,
) -> (r: Result<Config, ConflictError>)
    ensures
        match file {
            Some(Err(why)) => r matches Err(ConflictError::ConfigLoad(text)) && text == why,
            _ => {
                let all = merged(
                    file_config(file),
                    match cli {
                        Some(c) => Some(c@),
                        None => None,
                    },
                    match env {
                        Some(e) => Some(e@),
                        None => None,
                    },
                    batch_mode,
                    avx512,
                );
                match rules::first_violation(rules::standard_rules(batch_mode), all) {
                    Some(broken) => r matches Err(
                        ConflictError::RuleViolated { rule, reason },
                    ) && rule@ == broken.name && reason@ == broken.violation_reason,
                    None => r matches Ok(cfg) && cfg@ == all,
                }
            },
        },
{
    let mut cfg = match file {
        Some(Err(why)) => {
            return Err(ConflictError::ConfigLoad(why));
        },
        Some(Ok(c)) => c,
        None => Config::default(),
    };
    if let Some(c) = cli {
        cfg.distance = c.distance.clone();
        cfg.m = c.m;
        cfg.ef_construction = c.ef_construction;
        cfg.alpha = c.alpha;
        cfg.kernel = c.kernel.clone();
        cfg.pq_mode = c.pq_mode.clone();
        cfg.prefetch_window = c.prefetch_window;
        cfg.beta = c.beta;
        cfg.r_soft_ratio = c.r_soft_ratio;
        cfg.gemm_threshold = c.gemm_threshold;
        cfg.avq = c.avq;
        cfg.gemm_path = c.gemm_path;
        cfg.candidate_count = c.candidate_count;
        cfg.dim = c.dim;
        cfg.k = c.k;
        cfg.top_n = c.top_n;
        cfg.codebook_k = c.codebook_k;
        cfg.sub_dim = c.sub_dim;
        cfg.avq_alpha = c.avq_alpha;
    }
    if let Some(e) = env {
        cfg.apply_env(e);
    }
    cfg.apply_feature_flags(batch_mode, avx512);
    proof {
        rules::law_standard_rules_are_acyclic(batch_mode);
    }
    let engine = RuleEngine::<StandardCheck>::with_standard_rules(batch_mode);
    match engine.validate(&cfg) {
        Err(e) => Err(e),
        Ok(_) => Ok(cfg),
    }
}

/// Precedence: what the environment sets overrides the command line, which overrides the file, which
/// overrides what is built in. What the program was built with overrides all.
pub proof fn law_later_places_override(
    file: Option<ConfigView>,
    cli: ConfigView,
    env: EnvView,
    batch_mode: bool,
    avx512: bool,
)
    ensures
        ({
            let all = merged(file, Some(cli), Some(env), batch_mode, avx512);
            &&& env.distance matches Some(d) ==> all.distance == d
            &&& env.distance is None ==> all.distance == cli.distance
            &&& env.alpha matches Some(a) ==> all.alpha == a
            &&& env.alpha is None ==> all.alpha == cli.alpha
            &&& env.m is None ==> all.m == cli.m
            &&& env.m matches Some(t) ==> (text::size_of_text(t) matches Some(m) ==> all.m == m)
            &&& batch_mode ==> all.batch_mode
            &&& avx512 ==> all.avx512
        }),
        merged(file, None, None, false, false) == (match file {
            Some(f) => f,
            None => ConfigView::built_in(),
        }),
{
}

} // verus!
