//! Rules that settings have to keep. A rule that is broken refuses the settings or gives a warning.
//! Rules may depend on each other, but not in a circle.
use vstd::prelude::*;
use vstd::arithmetic::power2;
use vstd::string::*;
use crate::config::config::{Config, ConfigView};
use crate::config::text::same_text;
use crate::distance::single::{F32, ONE_BITS};

verus! {

/// Why settings are refused.
#[derive(Debug, Clone)]
pub enum ConflictError {
    /// A rule is broken.
    RuleViolated {
        /// The name of the rule.
        rule: String,
        /// Why it is there.
        reason: String,
    },
    /// The settings could not be read.
    ConfigLoad(String),
}

impl ConflictError {
    /// The message.
    pub open spec fn message(self) -> Seq<char> {
        match self {
            ConflictError::RuleViolated { rule, reason } => "rule '"@ + rule@ + "' violated: "@
                + reason@,
            ConflictError::ConfigLoad(why) => "config load error: "@ + why@,
        }
    }

    /// The message.
    pub fn to_text(&self) -> (s: String)
        ensures
            s@ == self.message(),
    {
        match self {
            ConflictError::RuleViolated { rule, reason } => {
                let mut s = "rule '".to_owned();
                s.append(rule.as_str());
                s.append("' violated: ");
                s.append(reason.as_str());
                s
            },
            ConflictError::ConfigLoad(why) => {
                let mut s = "config load error: ".to_owned();
                s.append(why.as_str());
                s
            },
        }
    }
}

/// What a broken rule does.
#[derive(Debug, Clone, Copy, PartialEq, Eq, Structural)]
pub enum RuleSeverity {
    /// It refuses the settings.
    Error,
    /// It gives a warning.
    Warning,
}

/// A condition on settings.
pub trait ConfigCheck {
    /// Whether the settings keep the condition.
    spec fn holds(&self, cfg: ConfigView) -> bool;

    /// Whether the settings keep the condition.
    fn check(&self, cfg: &Config) -> (b: bool)
        ensures
            b == self.holds(cfg@),
    ;
}

/// The conditions of the standard rules.
#[derive(Debug, Clone, Copy, PartialEq, Eq, Structural)]
pub enum StandardCheck {
    /// Kept by all settings.
    Always,
    /// Retrieval-aware quantization is not used with the Euclidean distance.
    AvqNotWithL2,
    /// With 512-bit instructions the dimension is a multiple of sixteen.
    Avx512Dimension,
    /// The matrix product is used only for more candidates than the threshold.
    GemmAboveThreshold,
    /// Batches are answered only by a program that was built for them.
    BatchModeBuilt {
        /// Whether the program was.
        built: bool,
    },
    /// The occlusion threshold is positive.
    AlphaPositive,
    /// The occlusion threshold is below one.
    AlphaBelowOne,
    /// With retrieval-aware quantization the size of a codebook is a power of two.
    CodebookPowerOfTwo,
    /// The dimension of a subspace divides the dimension.
    SubDimDivides,
    /// At least as many candidates are reranked as answers are returned.
    TopNCoversK,
    /// With retrieval-aware quantization the weight of the reconstruction loss is between zero and
    /// one.
    AvqAlphaInRange,
}

/// Whether a number is a power of two.
pub open spec fn power_of_two(n: nat) -> bool {
    exists|k: nat| n == #[trigger] power2::pow2(k)
}

impl ConfigCheck for StandardCheck {
    open spec fn holds(&self, cfg: ConfigView) -> bool {
        match *self {
            StandardCheck::Always => true,
            StandardCheck::AvqNotWithL2 => !(cfg.avq && cfg.distance == "l2"@),
            StandardCheck::Avx512Dimension => !cfg.avx512 || cfg.dim % 16 == 0,
            StandardCheck::GemmAboveThreshold => !cfg.gemm_path || cfg.candidate_count
                > cfg.gemm_threshold,
            StandardCheck::BatchModeBuilt { built } => !cfg.batch_mode || built,
            StandardCheck::AlphaPositive => F32(0).below(cfg.alpha),
            StandardCheck::AlphaBelowOne => cfg.alpha.below(F32(ONE_BITS)),
            StandardCheck::CodebookPowerOfTwo => !cfg.avq || power_of_two(cfg.codebook_k as nat),
            StandardCheck::SubDimDivides => cfg.sub_dim > 0 && cfg.dim % cfg.sub_dim == 0,
            StandardCheck::TopNCoversK => cfg.top_n >= cfg.k,
            StandardCheck::AvqAlphaInRange => !cfg.avq || F32(0).at_most(cfg.avq_alpha)
                && cfg.avq_alpha.at_most(F32(ONE_BITS)),
        }
    }

    fn check(&self, cfg: &Config) -> (b: bool) {
        match *self {
            StandardCheck::Always => true,
            StandardCheck::AvqNotWithL2 => !(cfg.avq && same_text(cfg.distance.as_str(), "l2")),
            StandardCheck::Avx512Dimension => !cfg.avx512 || cfg.dim % 16 == 0,
            StandardCheck::GemmAboveThreshold => !cfg.gemm_path || cfg.candidate_count
                > cfg.gemm_threshold,
            StandardCheck::BatchModeBuilt { built } => !cfg.batch_mode || built,
            StandardCheck::AlphaPositive => cfg.alpha.gt(F32(0)),
            StandardCheck::AlphaBelowOne => cfg.alpha.lt(F32(ONE_BITS)),
            StandardCheck::CodebookPowerOfTwo => !cfg.avq || is_power_of_two(cfg.codebook_k),
            StandardCheck::SubDimDivides => cfg.sub_dim > 0 && cfg.dim % cfg.sub_dim == 0,
            StandardCheck::TopNCoversK => cfg.top_n >= cfg.k,
            StandardCheck::AvqAlphaInRange => !cfg.avq || cfg.avq_alpha.ge(F32(0))
                && cfg.avq_alpha.le(F32(ONE_BITS)),
        }
    }
}

/// Whether a number is a power of two.
pub fn is_power_of_two(n: usize) -> (b: bool)
    ensures
        b == power_of_two(n as nat),
{
    proof {
        power2::lemma2_to64();
    }
    if n == 0 {
        proof {
            assert forall|k: nat| 0 != #[trigger] power2::pow2(k) by {
                power2::lemma_pow2_pos(k);
            }
        }
        return false;
    }
    let mut m: usize = n;
    let ghost mut k: nat = 0;
    assert(n * power2::pow2(0) == n) by (nonlinear_arith)
        requires
            power2::pow2(0) == 1,
    ;
    while m % 2 == 0
        invariant
            m > 0,
            n == m * power2::pow2(k),
        decreases m,
    {
        proof {
            power2::lemma_pow2_unfold(k + 1);
            assert(m * power2::pow2(k) == (m / 2) * power2::pow2(k + 1)) by (nonlinear_arith)
                requires
                    m == 2 * (m as int / 2),
                    power2::pow2(k + 1) == 2 * power2::pow2(k),
            ;
            k = k + 1;
        }
        m = m / 2;
    }
    proof {
        if m == 1 {
            assert(n == power2::pow2(k)) by (nonlinear_arith)
                requires
                    n == m * power2::pow2(k),
                    m == 1,
            ;
        } else {
            assert forall|j: nat| n as nat != #[trigger] power2::pow2(j) by {
                if n as nat == power2::pow2(j) {
                    lemma_odd_part(m as nat, k, j);
                }
            }
        }
    }
    m == 1
}

proof fn lemma_odd_part(m: nat, k: nat, j: nat)
    requires
        m % 2 == 1,
        m * power2::pow2(k) == power2::pow2(j),
    ensures
        m == 1,
{
    power2::lemma2_to64();
    power2::lemma_pow2_pos(k);
    power2::lemma_pow2_pos(j);
    if j < k {
        power2::lemma_pow2_strictly_increases(j, k);
        assert(m * power2::pow2(k) >= power2::pow2(k)) by (nonlinear_arith)
            requires
                m >= 1,
                power2::pow2(k) > 0,
        ;
    } else {
        let d = (j - k) as nat;
        power2::lemma_pow2_adds(d, k);
        assert(m == power2::pow2(d)) by (nonlinear_arith)
            requires
                m * power2::pow2(k) == power2::pow2(d) * power2::pow2(k),
                power2::pow2(k) > 0,
        ;
        if d > 0 {
            power2::lemma_pow2_unfold(d);
        }
    }
}

/// A rule.
#[derive(Debug, Clone)]
pub struct Rule<C: ConfigCheck> {
    /// Its name.
    pub name: String,
    /// What it says.
    pub description: String,
    /// The condition.
    pub check: C,
    /// Why it is there.
    pub violation_reason: String,
    /// What it does where it is broken.
    pub severity: RuleSeverity,
    /// The names of the rules that it depends on.
    pub depends_on: Vec<String>,
}

/// A rule as plain values.
pub struct RuleView<C> {
    /// Its name.
    pub name: Seq<char>,
    /// What it says.
    pub description: Seq<char>,
    /// The condition.
    pub check: C,
    /// Why it is there.
    pub violation_reason: Seq<char>,
    /// What it does where it is broken.
    pub severity: RuleSeverity,
    /// The names of the rules that it depends on.
    pub depends_on: Seq<Seq<char>>,
}

impl<C: ConfigCheck> View for Rule<C> {
    type V = RuleView<C>;

    open spec fn view(&self) -> RuleView<C> {
        RuleView {
            name: self.name@,
            description: self.description@,
            check: self.check,
            violation_reason: self.violation_reason@,
            severity: self.severity,
            depends_on: Seq::new(self.depends_on@.len(), |i: int| self.depends_on@[i]@),
        }
    }
}

/// A rule without dependencies.
pub open spec fn plain_rule<C>(
    name: Seq<char>,
    description: Seq<char>,
    check: C,
    violation_reason: Seq<char>,
    severity: RuleSeverity,
) -> RuleView<C> {
    RuleView {
        name,
        description,
        check,
        violation_reason,
        severity,
        depends_on: Seq::empty(),
    }
}

impl<C: ConfigCheck> Rule<C> {
    /// A rule that refuses settings.
    pub fn new(name: &str, description: &str, check: C, violation_reason: &str) -> (r: Self)
        ensures
            r@ == plain_rule(name@, description@, check, violation_reason@, RuleSeverity::Error),
    {
        let r = Rule {
            name: name.to_owned(),
            description: description.to_owned(),
            check,
            violation_reason: violation_reason.to_owned(),
            severity: RuleSeverity::Error,
            depends_on: Vec::new(),
        };
        assert(r@.depends_on =~= Seq::<Seq<char>>::empty());
        r
    }

    /// A rule that gives a warning.
    pub fn new_warning(
        name: &str,
        description: &str,
        check: C,
        violation_reason: &str,
    ) -> (r: Self)
        ensures
            r@ == plain_rule(name@, description@, check, violation_reason@, RuleSeverity::Warning),
    {
        let r = Rule {
            name: name.to_owned(),
            description: description.to_owned(),
            check,
            violation_reason: violation_reason.to_owned(),
            severity: RuleSeverity::Warning,
            depends_on: Vec::new(),
        };
        assert(r@.depends_on =~= Seq::<Seq<char>>::empty());
        r
    }

    /// The same rule with dependencies.
    pub fn with_depends_on(self, deps: &[&str]) -> (r: Self)
        ensures
            r@ == (RuleView {
                depends_on: Seq::new(deps@.len(), |i: int| deps@[i]@),
                ..self@
            }),
    {
        let mut depends_on: Vec<String> = Vec::with_capacity(deps.len());
        let mut i: usize = 0;
        while i < deps.len()
            invariant
                i <= deps@.len(),
                depends_on@.len() == i,
                forall|k: int| 0 <= k < i ==> (#[trigger] depends_on@[k])@ == deps@[k]@,
            decreases deps@.len() - i,
        {
            depends_on.push(deps[i].to_owned());
            i += 1;
        }
        let r = Rule {
            name: self.name,
            description: self.description,
            check: self.check,
            violation_reason: self.violation_reason,
            severity: self.severity,
            depends_on,
        };
        assert(r@.depends_on =~= Seq::new(deps@.len(), |i: int| deps@[i]@));
        r
    }
}

/// The rules of an engine.
pub struct RuleEngine<C: ConfigCheck> {
    rules: Vec<Rule<C>>,
}

impl<C: ConfigCheck> View for RuleEngine<C> {
    type V = Seq<RuleView<C>>;

    closed spec fn view(&self) -> Seq<RuleView<C>> {
        Seq::new(self.rules@.len(), |i: int| self.rules@[i]@)
    }
}

/// The standard rules, for a program that was built for batches or not.
pub open spec fn standard_rules(batch_mode: bool) -> Seq<RuleView<StandardCheck>> {
    seq![
        plain_rule(
            "avq_l2_conflict"@,
            "AVQ 与 L2 距离互斥"@,
            StandardCheck::AvqNotWithL2,
            "AVQ 模式与 L2 距离互斥"@,
            RuleSeverity::Error,
        ),
        plain_rule(
            "avx512_dim_alignment"@,
            "AVX-512 要求维度是 16 的倍数"@,
            StandardCheck::Avx512Dimension,
            "AVX-512 要求维度是 16 的倍数（__m512 = 16 × f32）"@,
            RuleSeverity::Error,
        ),
        plain_rule(
            "gemm_threshold_check"@,
            "GEMM 路径要求候选数超过阈值"@,
            StandardCheck::GemmAboveThreshold,
            "候选数未超过 GEMM 阈值，不应走 GEMM 路径"@,
            RuleSeverity::Error,
        ),
        plain_rule(
            "batch_mode_feature_gate"@,
            "批量模式需要 batch_mode feature"@,
            StandardCheck::BatchModeBuilt { built: batch_mode },
            "批量模式需要启用 batch_mode feature flag"@,
            RuleSeverity::Error,
        ),
        plain_rule(
            "alpha_positive"@,
            "α 参数必须大于 0"@,
            StandardCheck::AlphaPositive,
            "α ≤ 0 非法：剪枝参数必须为正数"@,
            RuleSeverity::Error,
        ),
        plain_rule(
            "alpha_high_warning"@,
            "α ≥ 1.0 时性能可能下降"@,
            StandardCheck::AlphaBelowOne,
            "α ≥ 1.0：剪枝更宽松，图度数增大，QPS 可能下降（Week 7 实测：α=1.2 QPS 比 α=1.0 低 5-15%）"@,
            RuleSeverity::Warning,
        ),
        plain_rule(
            "codebook_k_power_of_two"@,
            "AVQ codebook K 必须是 2 的幂次"@,
            StandardCheck::CodebookPowerOfTwo,
            "codebook K 必须是 2 的幂次（PQ 编码要求：K=256 → 8-bit 编码）"@,
            RuleSeverity::Error,
        ),
        plain_rule(
            "sub_dim_divides_dim"@,
            "sub_dim 必须整除 dim"@,
            StandardCheck::SubDimDivides,
            "sub_dim 必须整除 dim（AVQ 子空间划分要求）"@,
            RuleSeverity::Error,
        ),
        plain_rule(
            "top_n_ge_k"@,
            "rerank 候选数 top_n 必须 ≥ 最终返回数 k"@,
            StandardCheck::TopNCoversK,
            "top_n < k：rerank 候选数不足以填充最终结果"@,
            RuleSeverity::Error,
        ),
        plain_rule(
            "avq_alpha_range"@,
            "AVQ 混合权重 α 必须在 [0.0, 1.0] 范围内"@,
            StandardCheck::AvqAlphaInRange,
            "AVQ α 不在 [0.0, 1.0]：混合损失权重无效（α * recon + (1-α) * ret）"@,
            RuleSeverity::Error,
        ),
    ]
}

/// The last rule of the given name, or -1.
pub open spec fn last_named<C>(rules: Seq<RuleView<C>>, name: Seq<char>) -> int
    decreases rules.len(),
{
    if rules.len() == 0 {
        -1
    } else if rules.last().name == name {
        rules.len() - 1
    } else {
        last_named(rules.drop_last(), name)
    }
}

/// Rule `i` depends on rule `j`: by a name that `j` is the last to have.
pub open spec fn depends<C>(rules: Seq<RuleView<C>>, i: int, j: int) -> bool {
    exists|d: int|
        0 <= d < rules[i].depends_on.len() && last_named(
            rules,
            #[trigger] rules[i].depends_on[d],
        ) == j
}

/// Levels such that every rule is above those that it depends on.
pub open spec fn leveled<C>(rules: Seq<RuleView<C>>, level: Seq<nat>) -> bool {
    &&& level.len() == rules.len()
    &&& forall|i: int, j: int|
        0 <= i < rules.len() && 0 <= j < rules.len() && #[trigger] depends(rules, i, j)
            ==> level[j] < level[i]
}

/// No rule depends on itself, directly or through others.
pub open spec fn acyclic<C>(rules: Seq<RuleView<C>>) -> bool {
    exists|level: Seq<nat>| leveled(rules, level)
}

/// The rule refuses the settings.
pub open spec fn refuses<C: ConfigCheck>(rule: RuleView<C>, cfg: ConfigView) -> bool {
    rule.severity == RuleSeverity::Error && !rule.check.holds(cfg)
}

/// The rule gives a warning on the settings.
pub open spec fn warns<C: ConfigCheck>(rule: RuleView<C>, cfg: ConfigView) -> bool {
    rule.severity == RuleSeverity::Warning && !rule.check.holds(cfg)
}

/// The first rule that refuses the settings.
pub open spec fn first_violation<C: ConfigCheck>(rules: Seq<RuleView<C>>, cfg: ConfigView) -> Option<
    RuleView<C>,
>
    decreases rules.len(),
{
    if rules.len() == 0 {
        None
    } else if refuses(rules[0], cfg) {
        Some(rules[0])
    } else {
        first_violation(rules.skip(1), cfg)
    }
}

/// The rules that give a warning on the settings, in their order.
pub open spec fn warnings<C: ConfigCheck>(rules: Seq<RuleView<C>>, cfg: ConfigView) -> Seq<
    RuleView<C>,
>
    decreases rules.len(),
{
    if rules.len() == 0 {
        Seq::empty()
    } else {
        let before = warnings(rules.drop_last(), cfg);
        if warns(rules.last(), cfg) {
            before.push(rules.last())
        } else {
            before
        }
    }
}

/// What checking settings comes to: a circle among the rules is found first, then the first rule
/// that refuses them.
pub open spec fn verdict<C: ConfigCheck>(
    rules: Seq<RuleView<C>>,
    cfg: ConfigView,
    r: Result<(), ConflictError>,
) -> bool {
    if !acyclic(rules) {
        is_cycle_error(r)
    } else {
        match first_violation(rules, cfg) {
            Some(broken) => r matches Err(ConflictError::RuleViolated { rule, reason }) && rule@
                == broken.name && reason@ == broken.violation_reason,
            None => r is Ok,
        }
    }
}

/// The error for a circle among the rules.
pub open spec fn is_cycle_error(r: Result<(), ConflictError>) -> bool {
    r matches Err(ConflictError::RuleViolated { rule, reason }) && rule@ == "dag_cycle"@ && reason@
        == "规则依赖关系存在环（循环依赖）"@
}

impl Default for RuleEngine<StandardCheck> {
    fn default() -> (e: Self)
        ensures
            e@ == standard_rules(false),
    {
        RuleEngine::with_standard_rules(false)
    }
}

impl RuleEngine<StandardCheck> {
    /// The engine with the standard rules, for a program that was built for batches or not.
    pub fn with_standard_rules(batch_mode: bool) -> (e: Self)
        ensures
            e@ == standard_rules(batch_mode),
    {
        let mut rules: Vec<Rule<StandardCheck>> = Vec::with_capacity(10);
        rules.push(
            Rule::new(
                "avq_l2_conflict",
                "AVQ 与 L2 距离互斥",
                StandardCheck::AvqNotWithL2,
                "AVQ 模式与 L2 距离互斥",
            ),
        );
        rules.push(
            Rule::new(
                "avx512_dim_alignment",
                "AVX-512 要求维度是 16 的倍数",
                StandardCheck::Avx512Dimension,
                "AVX-512 要求维度是 16 的倍数（__m512 = 16 × f32）",
            ),
        );
        rules.push(
            Rule::new(
                "gemm_threshold_check",
                "GEMM 路径要求候选数超过阈值",
                StandardCheck::GemmAboveThreshold,
                "候选数未超过 GEMM 阈值，不应走 GEMM 路径",
            ),
        );
        rules.push(
            Rule::new(
                "batch_mode_feature_gate",
                "批量模式需要 batch_mode feature",
                StandardCheck::BatchModeBuilt { built: batch_mode },
                "批量模式需要启用 batch_mode feature flag",
            ),
        );
        rules.push(
            Rule::new(
                "alpha_positive",
                "α 参数必须大于 0",
                StandardCheck::AlphaPositive,
                "α ≤ 0 非法：剪枝参数必须为正数",
            ),
        );
        rules.push(
            Rule::new_warning(
                "alpha_high_warning",
                "α ≥ 1.0 时性能可能下降",
                StandardCheck::AlphaBelowOne,
                "α ≥ 1.0：剪枝更宽松，图度数增大，QPS 可能下降（Week 7 实测：α=1.2 QPS 比 α=1.0 低 5-15%）",
            ),
        );
        rules.push(
            Rule::new(
                "codebook_k_power_of_two",
                "AVQ codebook K 必须是 2 的幂次",
                StandardCheck::CodebookPowerOfTwo,
                "codebook K 必须是 2 的幂次（PQ 编码要求：K=256 → 8-bit 编码）",
            ),
        );
        rules.push(
            Rule::new(
                "sub_dim_divides_dim",
                "sub_dim 必须整除 dim",
                StandardCheck::SubDimDivides,
                "sub_dim 必须整除 dim（AVQ 子空间划分要求）",
            ),
        );
        rules.push(
            Rule::new(
                "top_n_ge_k",
                "rerank 候选数 top_n 必须 ≥ 最终返回数 k",
                StandardCheck::TopNCoversK,
                "top_n < k：rerank 候选数不足以填充最终结果",
            ),
        );
        rules.push(
            Rule::new(
                "avq_alpha_range",
                "AVQ 混合权重 α 必须在 [0.0, 1.0] 范围内",
                StandardCheck::AvqAlphaInRange,
                "AVQ α 不在 [0.0, 1.0]：混合损失权重无效（α * recon + (1-α) * ret）",
            ),
        );
        let e = RuleEngine { rules };
        assert(e@ =~= standard_rules(batch_mode));
        e
    }
}

impl<C: ConfigCheck> RuleEngine<C> {
    /// Adds a rule.
    pub fn add_rule(&mut self, rule: Rule<C>)
        ensures
            final(self)@ == old(self)@.push(rule@),
    {
        self.rules.push(rule);
        assert(self@ =~= old(self)@.push(rule@));
    }

    /// An engine without rules.
    pub fn new_empty() -> (e: Self)
        ensures
            e@ == Seq::<RuleView<C>>::empty(),
    {
        let e = RuleEngine { rules: Vec::new() };
        assert(e@ =~= Seq::<RuleView<C>>::empty());
        e
    }

    /// The last rule of the given name.
    fn find_last(&self, name: &str) -> (r: Option<usize>)
        ensures
            match r {
                Some(i) => last_named(self@, name@) == i && i < self@.len(),
                None => last_named(self@, name@) == -1,
            },
    {
        let ghost all = self@;
        let mut i: usize = self.rules.len();
        assert(all.take(i as int) =~= all);
        while i > 0
            invariant
                all == self@,
                all.len() == self.rules@.len(),
                i <= all.len(),
                last_named(all, name@) == last_named(all.take(i as int), name@),
            decreases i,
        {
            let ghost part = all.take(i as int);
            assert(part.last() == self.rules@[i - 1]@);
            assert(part.drop_last() =~= all.take(i - 1));
            if same_text(self.rules[i - 1].name.as_str(), name) {
                return Some(i - 1);
            }
            i -= 1;
        }
        None
    }

    /// Which rules a rule depends on. Names that no rule has are passed over.
    fn dependencies(&self, i: usize) -> (deps: Vec<usize>)
        requires
            i < self@.len(),
        ensures
            forall|k: int|
                0 <= k < deps@.len() ==> (#[trigger] deps@[k]) < self@.len() && depends(
                    self@,
                    i as int,
                    deps@[k] as int,
                ),
            forall|j: int|
                0 <= j < self@.len() && #[trigger] depends(self@, i as int, j) ==> deps@.contains(
                    j as usize,
                ),
    {
        let ghost all = self@;
        let names = &self.rules[i].depends_on;
        let mut deps: Vec<usize> = Vec::new();
        let mut d: usize = 0;
        while d < names.len()
            invariant
                d <= names@.len(),
                all == self@,
                i < all.len(),
                all[i as int].depends_on.len() == names@.len(),
                forall|k: int|
                    0 <= k < names@.len() ==> (#[trigger] names@[k])@
                        == all[i as int].depends_on[k],
                forall|k: int|
                    0 <= k < deps@.len() ==> (#[trigger] deps@[k]) < all.len() && depends(
                        all,
                        i as int,
                        deps@[k] as int,
                    ),
                forall|k: int|
                    0 <= k < d ==> ({
                        let at = last_named(all, #[trigger] all[i as int].depends_on[k]);
                        at < 0 || deps@.contains(at as usize)
                    }),
            decreases names@.len() - d,
        {
            let ghost before = deps@;
            assert(names@[d as int]@ == all[i as int].depends_on[d as int]);
            match self.find_last(names[d].as_str()) {
                Some(j) => {
                    deps.push(j);
                    proof {
                        assert(last_named(all, all[i as int].depends_on[d as int]) == j);
                        assert(depends(all, i as int, j as int));
                        assert(deps@[deps@.len() - 1] == j);
                        assert forall|x: usize| #[trigger] before.contains(x) implies deps@.contains(
                            x,
                        ) by {
                            let p = choose|p: int| 0 <= p < before.len() && before[p] == x;
                            assert(deps@[p] == x);
                        }
                    }
                },
                None => {},
            }
            d += 1;
        }
        proof {
            assert forall|j: int|
                0 <= j < all.len() && #[trigger] depends(all, i as int, j) implies deps@.contains(
                j as usize,
            ) by {
                let k = choose|k: int|
                    0 <= k < all[i as int].depends_on.len() && last_named(
                        all,
                        #[trigger] all[i as int].depends_on[k],
                    ) == j;
                assert(last_named(all, all[i as int].depends_on[k]) == j);
            }
        }
        deps
    }

    /// Whether the rules depend on each other in a circle: rules whose dependencies are all settled
    /// are settled one after the other; where some cannot be, there is a circle.
    pub fn validate_dag(&self) -> (r: Result<(), ConflictError>)
        ensures
            acyclic(self@) ==> r is Ok,
            !acyclic(self@) ==> is_cycle_error(r),
    {
        let n: usize = self.rules.len();
        let ghost all = self@;
        let mut deps: Vec<Vec<usize>> = Vec::with_capacity(n);
        let mut i: usize = 0;
        while i < n
            invariant
                i <= n,
                n == all.len(),
                all == self@,
                deps@.len() == i,
                forall|k: int| 0 <= k < i ==> lists_dependencies(all, k, #[trigger] deps@[k]@),
            decreases n - i,
        {
            deps.push(self.dependencies(i));
            i += 1;
        }
        let mut done: Vec<bool> = vec![false;n];
        let ghost mut level: Seq<nat> = Seq::new(n as nat, |i: int| 0nat);
        let mut settled: usize = 0;
        let mut stuck: bool = false;
        proof {
            lemma_count_none(done@);
        }
        while settled < n && !stuck
            invariant
                settled <= n,
                n == all.len(),
                deps@.len() == n,
                forall|k: int| 0 <= k < n ==> lists_dependencies(all, k, #[trigger] deps@[k]@),
                done@.len() == n,
                level.len() == n,
                count_true(done@) == settled,
                forall|k: int| 0 <= k < n && done@[k] ==> #[trigger] level[k] < settled,
                forall|i: int, j: int|
                    0 <= i < n && 0 <= j < n && done@[i] && #[trigger] depends(all, i, j)
                        ==> done@[j] && level[j] < level[i],
                stuck ==> !acyclic(all),
            decreases
                    n - settled,
                    (if stuck {
                        0int
                    } else {
                        1int
                    }),
        {
            match next_ready(&deps, &done) {
                Some(x) => {
                    let ghost before = done@;
                    done.set(x, true);
                    proof {
                        lemma_count_set(before, x as int);
                        level = level.update(x as int, settled as nat);
                        assert forall|i: int, j: int|
                            0 <= i < n && 0 <= j < n && done@[i] && #[trigger] depends(
                                all,
                                i,
                                j,
                            ) implies done@[j] && level[j] < level[i] by {
                            if i == x {
                                assert(lists_dependencies(all, x as int, deps@[x as int]@));
                                let p = choose|p: int|
                                    0 <= p < deps@[x as int]@.len() && deps@[x as int]@[p] == j;
                                assert(before[deps@[x as int]@[p] as int]);
                                assert(j != x);
                            } else {
                                assert(before[i]);
                                assert(before[j]);
                                assert(j != x);
                            }
                        }
                    }
                    settled += 1;
                },
                None => {
                    proof {
                        lemma_count_all(done@);
                        let start = choose|k: int| 0 <= k < n && !done@[k];
                        if acyclic(all) {
                            let l = choose|l: Seq<nat>| leveled(all, l);
                            lemma_no_bottom(all, deps@, done@, l, start);
                        }
                    }
                    stuck = true;
                },
            }
        }
        if stuck {
            return Err(
                ConflictError::RuleViolated {
                    rule: "dag_cycle".to_owned(),
                    reason: "规则依赖关系存在环（循环依赖）".to_owned(),
                },
            );
        }
        proof {
            lemma_count_all(done@);
            assert(leveled(all, level)) by {
                assert forall|i: int, j: int|
                    0 <= i < n && 0 <= j < n && #[trigger] depends(all, i, j) implies level[j]
                    < level[i] by {
                    assert(done@[i]);
                }
            }
        }
        Ok(())
    }

    /// Checks settings against the rules that refuse.
    pub fn validate(&self, cfg: &Config) -> (r: Result<(), ConflictError>)
        ensures
            verdict(self@, cfg@, r),
    {
        match self.validate_dag() {
            Err(e) => {
                return Err(e);
            },
            Ok(_) => {},
        }
        let ghost all = self@;
        let mut i: usize = 0;
        assert(all.skip(0) =~= all);
        while i < self.rules.len()
            invariant
                all == self@,
                acyclic(all),
                all.len() == self.rules@.len(),
                i <= all.len(),
                first_violation(all, cfg@) == first_violation(all.skip(i as int), cfg@),
            decreases all.len() - i,
        {
            let ghost rest = all.skip(i as int);
            assert(rest[0] == self.rules@[i as int]@);
            assert(rest.skip(1) =~= all.skip(i + 1));
            if self.rules[i].severity == RuleSeverity::Error && !self.rules[i].check.check(cfg) {
                return Err(
                    ConflictError::RuleViolated {
                        rule: self.rules[i].name.clone(),
                        reason: self.rules[i].violation_reason.clone(),
                    },
                );
            }
            i += 1;
        }
        Ok(())
    }

    /// The rules that give a warning on settings.
    pub fn check_warnings(&self, cfg: &Config) -> (found: Vec<&Rule<C>>)
        ensures
            Seq::new(found@.len(), |i: int| found@[i]@) == warnings(self@, cfg@),
    {
        let ghost all = self@;
        let mut found: Vec<&Rule<C>> = Vec::new();
        let mut i: usize = 0;
        assert(all.take(0) =~= Seq::<RuleView<C>>::empty());
        assert(Seq::new(found@.len(), |i: int| found@[i]@) =~= warnings(all.take(0), cfg@));
        while i < self.rules.len()
            invariant
                all == self@,
                all.len() == self.rules@.len(),
                i <= all.len(),
                Seq::new(found@.len(), |i: int| found@[i]@) == warnings(all.take(i as int), cfg@),
            decreases all.len() - i,
        {
            let ghost part = all.take(i + 1);
            assert(part.last() == self.rules@[i as int]@);
            assert(part.drop_last() =~= all.take(i as int));
            if self.rules[i].severity == RuleSeverity::Warning && !self.rules[i].check.check(cfg) {
                let ghost before = found@;
                found.push(&self.rules[i]);
                assert(Seq::new(found@.len(), |i: int| found@[i]@) =~= Seq::new(
                    before.len(),
                    |i: int| before[i]@,
                ).push(part.last()));
            }
            i += 1;
        }
        assert(all.take(i as int) =~= all);
        found
    }

    /// Checks settings against the rules that refuse; where none does, returns the rules that give
    /// a warning.
    pub fn validate_and_warn(&self, cfg: &Config) -> (r: Result<Vec<&Rule<C>>, ConflictError>)
        ensures
            match r {
                Ok(found) => verdict(self@, cfg@, Ok(())) && Seq::new(
                    found@.len(),
                    |i: int| found@[i]@,
                ) == warnings(self@, cfg@),
                Err(e) => verdict(self@, cfg@, Err(e)),
            },
    {
        match self.validate(cfg) {
            Err(e) => Err(e),
            Ok(_) => Ok(self.check_warnings(cfg)),
        }
    }

    /// The number of rules.
    pub fn len(&self) -> (n: usize)
        ensures
            n == self@.len(),
    {
        self.rules.len()
    }

    /// Whether there are no rules.
    pub fn is_empty(&self) -> (b: bool)
        ensures
            b == (self@.len() == 0),
    {
        self.rules.len() == 0
    }
}

/// The list holds exactly the rules that rule `i` depends on.
spec fn lists_dependencies<C>(rules: Seq<RuleView<C>>, i: int, deps: Seq<usize>) -> bool {
    &&& forall|k: int|
        0 <= k < deps.len() ==> (#[trigger] deps[k]) < rules.len() && depends(
            rules,
            i,
            deps[k] as int,
        )
    &&& forall|j: int|
        0 <= j < rules.len() && #[trigger] depends(rules, i, j) ==> deps.contains(j as usize)
}

/// How many of the values are true.
spec fn count_true(s: Seq<bool>) -> nat
    decreases s.len(),
{
    if s.len() == 0 {
        0
    } else {
        count_true(s.drop_last()) + (if s.last() {
            1nat
        } else {
            0nat
        })
    }
}

proof fn lemma_count_set(s: Seq<bool>, i: int)
    requires
        0 <= i < s.len(),
        !s[i],
    ensures
        count_true(s.update(i, true)) == count_true(s) + 1,
    decreases s.len(),
{
    let t = s.update(i, true);
    if i == s.len() - 1 {
        assert(t.drop_last() =~= s.drop_last());
    } else {
        assert(t.drop_last() =~= s.drop_last().update(i, true));
        lemma_count_set(s.drop_last(), i);
    }
}

proof fn lemma_count_none(s: Seq<bool>)
    requires
        forall|i: int| 0 <= i < s.len() ==> !s[i],
    ensures
        count_true(s) == 0,
    decreases s.len(),
{
    if s.len() > 0 {
        let t = s.drop_last();
        assert forall|i: int| 0 <= i < t.len() implies !t[i] by {
            assert(!s[i]);
        }
        lemma_count_none(t);
    }
}

proof fn lemma_count_all(s: Seq<bool>)
    ensures
        count_true(s) <= s.len(),
        count_true(s) == s.len() ==> forall|i: int| 0 <= i < s.len() ==> s[i],
        count_true(s) < s.len() ==> exists|i: int| 0 <= i < s.len() && !s[i],
    decreases s.len(),
{
    if s.len() > 0 {
        let t = s.drop_last();
        lemma_count_all(t);
        if count_true(s) < s.len() {
            if !s.last() {
                assert(!s[s.len() - 1]);
            } else {
                let i = choose|i: int| 0 <= i < t.len() && !t[i];
                assert(!s[i]);
            }
        } else {
            assert forall|i: int| 0 <= i < s.len() implies s[i] by {
                if i < t.len() {
                    assert(t[i]);
                }
            }
        }
    }
}

/// A rule that is not settled while those that it depends on are.
fn next_ready(deps: &Vec<Vec<usize>>, done: &Vec<bool>) -> (r: Option<usize>)
    requires
        deps@.len() == done@.len(),
        forall|k: int, p: int|
            0 <= k < deps@.len() && 0 <= p < deps@[k]@.len() ==> (#[trigger] deps@[k]@[p])
                < done@.len(),
    ensures
        match r {
            Some(x) => x < done@.len() && !done@[x as int] && forall|p: int|
                0 <= p < deps@[x as int]@.len() ==> done@[(#[trigger] deps@[x as int]@[p]) as int],
            None => forall|k: int|
                0 <= k < done@.len() && !(#[trigger] done@[k]) ==> exists|p: int|
                    0 <= p < deps@[k]@.len() && !done@[(#[trigger] deps@[k]@[p]) as int],
        },
{
    let mut i: usize = 0;
    while i < done.len()
        invariant
            i <= done@.len(),
            deps@.len() == done@.len(),
            forall|k: int, p: int|
                0 <= k < deps@.len() && 0 <= p < deps@[k]@.len() ==> (#[trigger] deps@[k]@[p])
                    < done@.len(),
            forall|k: int|
                0 <= k < i && !(#[trigger] done@[k]) ==> exists|p: int|
                    0 <= p < deps@[k]@.len() && !done@[(#[trigger] deps@[k]@[p]) as int],
        decreases done@.len() - i,
    {
        if !done[i] {
            let list = &deps[i];
            let mut ready: bool = true;
            let mut p: usize = 0;
            while p < list.len()
                invariant
                    p <= list@.len(),
                    i < done@.len(),
                    *list == deps@[i as int],
                    deps@.len() == done@.len(),
                    forall|k: int, p: int|
                        0 <= k < deps@.len() && 0 <= p < deps@[k]@.len() ==> (
                        #[trigger] deps@[k]@[p]) < done@.len(),
                    ready ==> forall|q: int|
                        0 <= q < p ==> done@[(#[trigger] deps@[i as int]@[q]) as int],
                    !ready ==> exists|q: int|
                        0 <= q < p && !done@[(#[trigger] deps@[i as int]@[q]) as int],
                decreases list@.len() - p,
            {
                assert(deps@[i as int]@[p as int] < done@.len());
                if !done[list[p]] {
                    ready = false;
                }
                p += 1;
            }
            if ready {
                return Some(i);
            }
        }
        i += 1;
    }
    None
}

/// Rules that each depend on another of them have no levels: none could be at the lowest.
proof fn lemma_no_bottom<C>(
    rules: Seq<RuleView<C>>,
    deps: Seq<Vec<usize>>,
    done: Seq<bool>,
    level: Seq<nat>,
    i: int,
)
    requires
        deps.len() == rules.len(),
        done.len() == rules.len(),
        forall|k: int| 0 <= k < rules.len() ==> lists_dependencies(rules, k, #[trigger] deps[k]@),
        forall|k: int|
            0 <= k < done.len() && !(#[trigger] done[k]) ==> exists|p: int|
                0 <= p < deps[k]@.len() && !done[(#[trigger] deps[k]@[p]) as int],
        0 <= i < rules.len(),
        !done[i],
    ensures
        !leveled(rules, level),
    decreases level[i],
{
    if leveled(rules, level) {
        let p = choose|p: int| 0 <= p < deps[i]@.len() && !done[(#[trigger] deps[i]@[p]) as int];
        assert(lists_dependencies(rules, i, deps[i]@));
        let j = deps[i]@[p] as int;
        assert(depends(rules, i, j));
        lemma_no_bottom(rules, deps, done, level, j);
    }
}

/// Rules without dependencies are in no circle.
pub proof fn lemma_plain_rules_are_acyclic<C>(rules: Seq<RuleView<C>>)
    requires
        forall|i: int| 0 <= i < rules.len() ==> (#[trigger] rules[i]).depends_on.len() == 0,
    ensures
        acyclic(rules),
{
    let level = Seq::new(rules.len(), |i: int| 0nat);
    assert(leveled(rules, level));
}

/// The standard rules are in no circle.
pub proof fn law_standard_rules_are_acyclic(batch_mode: bool)
    ensures
        acyclic(standard_rules(batch_mode)),
        standard_rules(batch_mode).len() == 10,
{
    lemma_plain_rules_are_acyclic(standard_rules(batch_mode));
}

/// Rules each of which depends on the next, and the last on the first.
pub open spec fn is_circle<C>(rules: Seq<RuleView<C>>, path: Seq<int>) -> bool {
    &&& path.len() >= 1
    &&& forall|k: int| 0 <= k < path.len() ==> 0 <= (#[trigger] path[k]) < rules.len()
    &&& forall|k: int, m: int|
        0 <= k && m == k + 1 && m < path.len() ==> depends(
            rules,
            #[trigger] path[k],
            #[trigger] path[m],
        )
    &&& depends(rules, path.last(), path[0])
}

/// Along a circle the levels fall.
proof fn lemma_levels_fall<C>(
    rules: Seq<RuleView<C>>,
    path: Seq<int>,
    level: Seq<nat>,
    k: int,
)
    requires
        is_circle(rules, path),
        leveled(rules, level),
        0 <= k < path.len(),
    ensures
        level[path[k]] <= level[path[0]],
    decreases k,
{
    if k > 0 {
        lemma_levels_fall(rules, path, level, k - 1);
        assert(depends(rules, path[k - 1], path[k]));
    }
}

/// The rule that a walk through unsettled rules comes to next.
spec fn next_unsettled<C>(rules: Seq<RuleView<C>>, done: Seq<bool>, i: int) -> int {
    choose|j: int| 0 <= j < rules.len() && !done[j] && #[trigger] depends(rules, i, j)
}

/// A walk of `k` steps through unsettled rules.
spec fn walk<C>(rules: Seq<RuleView<C>>, done: Seq<bool>, start: int, k: nat) -> Seq<int>
    decreases k,
{
    if k == 0 {
        seq![start]
    } else {
        let before = walk(rules, done, start, (k - 1) as nat);
        before.push(next_unsettled(rules, done, before.last()))
    }
}

/// No rule can be settled: every one that is not depends on another that is not.
spec fn is_stuck<C>(rules: Seq<RuleView<C>>, done: Seq<bool>) -> bool {
    forall|i: int|
        0 <= i < rules.len() && !done[i] ==> exists|j: int|
            0 <= j < rules.len() && !done[j] && #[trigger] depends(rules, i, j)
}

proof fn lemma_walk<C>(rules: Seq<RuleView<C>>, done: Seq<bool>, start: int, k: nat)
    requires
        is_stuck(rules, done),
        0 <= start < rules.len(),
        !done[start],
    ensures
        walk(rules, done, start, k).len() == k + 1,
        forall|m: int|
            0 <= m <= k ==> 0 <= (#[trigger] walk(rules, done, start, k)[m]) < rules.len()
                && !done[walk(rules, done, start, k)[m]],
        forall|m: int, p: int|
            0 <= m && p == m + 1 && p <= k ==> depends(
                rules,
                #[trigger] walk(rules, done, start, k)[m],
                #[trigger] walk(rules, done, start, k)[p],
            ),
    decreases k,
{
    if k > 0 {
        lemma_walk(rules, done, start, (k - 1) as nat);
        let before = walk(rules, done, start, (k - 1) as nat);
        let i = before.last();
        assert(i == before[k - 1]);
        assert(0 <= i < rules.len() && !done[i]);
        let j = next_unsettled(rules, done, i);
        assert(0 <= j < rules.len() && !done[j] && depends(rules, i, j));
        let path = walk(rules, done, start, k);
        assert forall|m: int, p: int| 0 <= m && p == m + 1 && p <= k implies depends(
            rules,
            #[trigger] path[m],
            #[trigger] path[p],
        ) by {
            assert(path[m] == before[m]);
            if p < k {
                assert(path[p] == before[p]);
            }
        }
        assert forall|m: int| 0 <= m <= k implies 0 <= (#[trigger] path[m]) < rules.len()
            && !done[path[m]] by {
            if m < k {
                assert(path[m] == before[m]);
            }
        }
    }
}

/// More places than there are cannot all be different.
proof fn lemma_some_place_twice(path: Seq<int>, n: nat) -> (r: (int, int))
    requires
        path.len() > n,
        forall|k: int| 0 <= k < path.len() ==> 0 <= (#[trigger] path[k]) < n,
    ensures
        0 <= r.0 < r.1 < path.len(),
        path[r.0] == path[r.1],
{
    if path.no_duplicates() {
        let all = vstd::set_lib::set_int_range(0, n as int);
        vstd::set_lib::lemma_int_range(0, n as int);
        path.unique_seq_to_set();
        assert forall|x: int| #[trigger] path.to_set().contains(x) implies all.contains(x) by {
            let k = choose|k: int| 0 <= k < path.len() && path[k] == x;
            assert(0 <= path[k] < n);
        }
        assert(path.to_set().subset_of(all));
        vstd::set_lib::lemma_len_subset(path.to_set(), all);
    }
    let (a, b) = choose|a: int, b: int|
        0 <= a < path.len() && 0 <= b < path.len() && a != b && path[a] == path[b];
    if a < b {
        (a, b)
    } else {
        (b, a)
    }
}

/// Where no rule can be settled, the rules that are not have a circle among them.
proof fn lemma_stuck_rules_have_a_circle<C>(
    rules: Seq<RuleView<C>>,
    done: Seq<bool>,
    start: int,
) -> (path: Seq<int>)
    requires
        is_stuck(rules, done),
        0 <= start < rules.len(),
        !done[start],
    ensures
        is_circle(rules, path),
{
    let n = rules.len();
    let all = walk(rules, done, start, n);
    lemma_walk(rules, done, start, n);
    let (a, b) = lemma_some_place_twice(all, n);
    let path = all.subrange(a, b);
    assert forall|k: int| 0 <= k < path.len() implies 0 <= (#[trigger] path[k]) < rules.len() by {
        assert(path[k] == all[a + k]);
    }
    assert forall|k: int, m: int| 0 <= k && m == k + 1 && m < path.len() implies depends(
        rules,
        #[trigger] path[k],
        #[trigger] path[m],
    ) by {
        assert(path[k] == all[a + k] && path[m] == all[a + m]);
        assert(depends(rules, all[a + k], all[a + m]));
    }
    assert(path.last() == all[b - 1]);
    assert(depends(rules, all[b - 1], all[b]));
    path
}

/// Settling rules one after the other leaves none, or finds a circle.
proof fn lemma_settle<C>(rules: Seq<RuleView<C>>, done: Seq<bool>, level: Seq<nat>, settled: nat)
    requires
        done.len() == rules.len(),
        level.len() == rules.len(),
        count_true(done) == settled,
        settled <= rules.len(),
        forall|k: int| 0 <= k < rules.len() && done[k] ==> #[trigger] level[k] < settled,
        forall|i: int, j: int|
            0 <= i < rules.len() && 0 <= j < rules.len() && done[i] && #[trigger] depends(
                rules,
                i,
                j,
            ) ==> done[j] && level[j] < level[i],
    ensures
        acyclic(rules) || exists|path: Seq<int>| is_circle(rules, path),
    decreases rules.len() - settled,
{
    lemma_count_all(done);
    if settled == rules.len() {
        assert(leveled(rules, level)) by {
            assert forall|i: int, j: int|
                0 <= i < rules.len() && 0 <= j < rules.len() && #[trigger] depends(
                    rules,
                    i,
                    j,
                ) implies level[j] < level[i] by {
                assert(done[i]);
            }
        }
    } else {
        let start = choose|k: int| 0 <= k < rules.len() && !done[k];
        if is_stuck(rules, done) {
            let path = lemma_stuck_rules_have_a_circle(rules, done, start);
            assert(is_circle(rules, path));
        } else {
            let x = choose|i: int|
                0 <= i < rules.len() && !done[i] && !(exists|j: int|
                    0 <= j < rules.len() && !done[j] && #[trigger] depends(rules, i, j));
            let next = done.update(x, true);
            let levels = level.update(x, settled);
            lemma_count_set(done, x);
            assert forall|i: int, j: int|
                0 <= i < rules.len() && 0 <= j < rules.len() && next[i] && #[trigger] depends(
                    rules,
                    i,
                    j,
                ) implies next[j] && levels[j] < levels[i] by {
                if i == x {
                    assert(done[j]);
                    assert(j != x);
                    assert(level[j] < settled);
                } else {
                    assert(done[i]);
                    assert(done[j]);
                }
            }
            assert forall|k: int| 0 <= k < rules.len() && next[k] implies #[trigger] levels[k]
                < settled + 1 by {
                if k != x {
                    assert(level[k] < settled);
                }
            }
            lemma_settle(rules, next, levels, settled + 1);
        }
    }
}

/// Rules that depend on each other in a circle of any length are refused, and where rules are
/// refused there is such a circle.
pub proof fn law_circles_are_found<C>(rules: Seq<RuleView<C>>)
    ensures
        !acyclic(rules) <==> exists|path: Seq<int>| is_circle(rules, path),
{
    if acyclic(rules) && exists|path: Seq<int>| is_circle(rules, path) {
        let level = choose|level: Seq<nat>| leveled(rules, level);
        let path = choose|path: Seq<int>| is_circle(rules, path);
        lemma_levels_fall(rules, path, level, path.len() - 1);
        assert(depends(rules, path.last(), path[0]));
    }
    let done = Seq::new(rules.len(), |i: int| false);
    lemma_count_none(done);
    lemma_settle(rules, done, Seq::new(rules.len(), |i: int| 0nat), 0);
}

} // verus!
