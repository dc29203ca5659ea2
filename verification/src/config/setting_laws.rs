//! Which settings are refused, and how texts are read.
use vstd::prelude::*;
use vstd::arithmetic::power2;
use crate::config::config::{ConfigView, EnvView};
use crate::config::params;
use crate::config::rules;
use crate::config::rules::{ConfigCheck, RuleView, StandardCheck};
use crate::config::text;
use crate::distance::single::{
    F32, FOUR_TENTHS_BITS, ONE_BITS, ONE_HALF_BITS, ONE_TENTH_BITS, THREE_TENTHS_BITS,
    TWO_TENTHS_BITS,
};

verus! {

/// The rule that settings break is the first that refuses them; none is broken where, and only where,
/// none refuses them.
pub proof fn law_the_first_refusal_counts<C: ConfigCheck>(rules: Seq<RuleView<C>>, cfg: ConfigView)
    ensures
        match rules::first_violation(rules, cfg) {
            Some(broken) => exists|i: int|
                0 <= i < rules.len() && #[trigger] rules[i] == broken && rules::refuses(
                    rules[i],
                    cfg,
                ) && forall|j: int| 0 <= j < i ==> !rules::refuses(#[trigger] rules[j], cfg),
            None => forall|j: int|
                0 <= j < rules.len() ==> !rules::refuses(#[trigger] rules[j], cfg),
        },
    decreases rules.len(),
{
    if rules.len() > 0 && !rules::refuses(rules[0], cfg) {
        let rest = rules.skip(1);
        law_the_first_refusal_counts(rest, cfg);
        match rules::first_violation(rules, cfg) {
            Some(broken) => {
                let i = choose|i: int|
                    0 <= i < rest.len() && #[trigger] rest[i] == broken && rules::refuses(
                        rest[i],
                        cfg,
                    ) && forall|j: int| 0 <= j < i ==> !rules::refuses(#[trigger] rest[j], cfg);
                assert(rules[i + 1] == broken);
                assert forall|j: int| 0 <= j < i + 1 implies !rules::refuses(
                    #[trigger] rules[j],
                    cfg,
                ) by {
                    if j > 0 {
                        assert(rest[j - 1] == rules[j]);
                    }
                }
            },
            None => {
                assert forall|j: int| 0 <= j < rules.len() implies !rules::refuses(
                    #[trigger] rules[j],
                    cfg,
                ) by {
                    if j > 0 {
                        assert(rest[j - 1] == rules[j]);
                    }
                }
            },
        }
    }
}

/// The warnings are those of the rules that warn, and a rule that refuses gives none.
pub proof fn law_warnings_are_of_rules_that_warn<C: ConfigCheck>(
    rules: Seq<RuleView<C>>,
    cfg: ConfigView,
    r: RuleView<C>,
)
    ensures
        rules::warnings(rules, cfg).contains(r) <==> rules.contains(r) && rules::warns(r, cfg),
        rules::warns(r, cfg) ==> !rules::refuses(r, cfg),
        rules::warnings(rules, cfg).len() <= rules.len(),
    decreases rules.len(),
{
    if rules.len() > 0 {
        let short = rules.drop_last();
        law_warnings_are_of_rules_that_warn(short, cfg, r);
        let before = rules::warnings(short, cfg);
        let all = rules::warnings(rules, cfg);
        let l = rules.len() - 1;
        if all.contains(r) {
            let k = choose|k: int| 0 <= k < all.len() && all[k] == r;
            if k < before.len() {
                assert(before[k] == r);
                let j = choose|j: int| 0 <= j < short.len() && short[j] == r;
                assert(rules[j] == r);
            } else {
                assert(rules[l] == r);
            }
        }
        if rules.contains(r) && rules::warns(r, cfg) {
            let j = choose|j: int| 0 <= j < rules.len() && rules[j] == r;
            if j < l {
                assert(short[j] == r);
                let k = choose|k: int| 0 <= k < before.len() && before[k] == r;
                assert(all[k] == r);
            } else {
                assert(all[all.len() - 1] == r);
            }
        }
    }
}

/// The standard rules accept settings where, and only where: AVQ does not go with squared distances;
/// sixteen lanes have a dimension that is a multiple of sixteen; more candidates than the threshold take
/// the path by matrices; batches are taken where the program was built for them; the threshold is
/// positive; a codebook of AVQ has a power of two of entries; the parts divide the dimension; as many
/// candidates are kept as are answered; and the weight of AVQ is between zero and one.
pub proof fn law_standard_rules_accept(batch_mode: bool, cfg: ConfigView)
    ensures
        rules::first_violation(rules::standard_rules(batch_mode), cfg) is None <==> {
            &&& !(cfg.avq && cfg.distance == "l2"@)
            &&& cfg.avx512 ==> cfg.dim % 16 == 0
            &&& cfg.gemm_path ==> cfg.candidate_count > cfg.gemm_threshold
            &&& cfg.batch_mode ==> batch_mode
            &&& F32(0).below(cfg.alpha)
            &&& cfg.avq ==> exists|k: nat| cfg.codebook_k == #[trigger] power2::pow2(k)
            &&& cfg.sub_dim > 0 && cfg.dim % cfg.sub_dim == 0
            &&& cfg.top_n >= cfg.k
            &&& cfg.avq ==> F32(0).at_most(cfg.avq_alpha) && cfg.avq_alpha.at_most(F32(ONE_BITS))
        },
{
    let all = rules::standard_rules(batch_mode);
    law_the_first_refusal_counts(all, cfg);
    assert(all.len() == 10);
    assert(rules::refuses(all[0], cfg) <==> cfg.avq && cfg.distance == "l2"@);
    assert(rules::refuses(all[1], cfg) <==> cfg.avx512 && cfg.dim % 16 != 0);
    assert(rules::refuses(all[2], cfg) <==> cfg.gemm_path && cfg.candidate_count
        <= cfg.gemm_threshold);
    assert(rules::refuses(all[3], cfg) <==> cfg.batch_mode && !batch_mode);
    assert(rules::refuses(all[4], cfg) <==> !F32(0).below(cfg.alpha));
    assert(!rules::refuses(all[5], cfg));
    assert(rules::refuses(all[6], cfg) <==> cfg.avq && !rules::power_of_two(cfg.codebook_k as nat));
    assert(rules::refuses(all[7], cfg) <==> !(cfg.sub_dim > 0 && cfg.dim % cfg.sub_dim == 0));
    assert(rules::refuses(all[8], cfg) <==> cfg.top_n < cfg.k);
    assert(rules::refuses(all[9], cfg) <==> cfg.avq && !(F32(0).at_most(cfg.avq_alpha)
        && cfg.avq_alpha.at_most(F32(ONE_BITS))));
}

/// The one warning of the standard rules is that the threshold is not below one.
pub proof fn law_standard_rules_warn(batch_mode: bool, cfg: ConfigView, r: RuleView<StandardCheck>)
    ensures
        cfg.alpha.below(F32(ONE_BITS)) ==> rules::warnings(
            rules::standard_rules(batch_mode),
            cfg,
        ).len() == 0,
        !cfg.alpha.below(F32(ONE_BITS)) ==> (rules::warnings(
            rules::standard_rules(batch_mode),
            cfg,
        ).contains(r) <==> r == rules::standard_rules(batch_mode)[5]),
{
    let all = rules::standard_rules(batch_mode);
    assert(all.len() == 10);
    assert(all[5].check == StandardCheck::AlphaBelowOne);
    assert forall|x: RuleView<StandardCheck>| all.contains(x) && #[trigger] rules::warns(
        x,
        cfg,
    ) implies x == all[5] && !cfg.alpha.below(F32(ONE_BITS)) by {
        let j = choose|j: int| 0 <= j < all.len() && all[j] == x;
        assert(j == 0 || j == 1 || j == 2 || j == 3 || j == 4 || j == 5 || j == 6 || j == 7 || j
            == 8 || j == 9);
    }
    law_warnings_are_of_rules_that_warn(all, cfg, r);
    if cfg.alpha.below(F32(ONE_BITS)) {
        let w = rules::warnings(all, cfg);
        if w.len() > 0 {
            law_warnings_are_of_rules_that_warn(all, cfg, w[0]);
            assert(w.contains(w[0]));
        }
    } else {
        assert(all.contains(all[5]));
        assert(rules::warns(all[5], cfg));
    }
}

/// A trimmed text is a part of the text, it neither starts nor ends with white space, and only white
/// space stands before and after it.
pub proof fn law_trimming_takes_off_white_space(s: Seq<char>) -> (part: (int, int))
    ensures
        0 <= part.0 <= part.1 <= s.len(),
        text::trimmed(s) == s.subrange(part.0, part.1),
        forall|i: int| 0 <= i < part.0 ==> text::white(#[trigger] s[i]),
        forall|i: int| part.1 <= i < s.len() ==> text::white(#[trigger] s[i]),
        part.0 < part.1 ==> !text::white(s[part.0]) && !text::white(s[part.1 - 1]),
    decreases s.len(),
{
    if s.len() == 0 {
        assert(s =~= s.subrange(0, 0));
        (0, 0)
    } else if text::white(s[0]) {
        let t = s.drop_first();
        let p = law_trimming_takes_off_white_space(t);
        assert(t.subrange(p.0, p.1) =~= s.subrange(p.0 + 1, p.1 + 1));
        assert forall|i: int| 0 <= i < p.0 + 1 implies text::white(#[trigger] s[i]) by {
            if i > 0 {
                assert(t[i - 1] == s[i]);
            }
        }
        assert forall|i: int| p.1 + 1 <= i < s.len() implies text::white(#[trigger] s[i]) by {
            assert(t[i - 1] == s[i]);
        }
        (p.0 + 1, p.1 + 1)
    } else if text::white(s.last()) {
        let t = s.drop_last();
        let p = law_trimming_takes_off_white_space(t);
        assert(t.subrange(p.0, p.1) =~= s.subrange(p.0, p.1));
        assert forall|i: int| 0 <= i < p.0 implies text::white(#[trigger] s[i]) by {
            assert(t[i] == s[i]);
        }
        assert forall|i: int| p.1 <= i < s.len() implies text::white(#[trigger] s[i]) by {
            if i < t.len() {
                assert(t[i] == s[i]);
            }
        }
        p
    } else {
        assert(s =~= s.subrange(0, s.len() as int));
        (0, s.len() as int)
    }
}

/// Digits spell a number place by place: one more digit at the end is worth itself, and what stands
/// before it ten times as much. A text of one digit is worth that digit.
pub proof fn law_digits_are_worth_their_place(s: Seq<char>, d: nat)
    requires
        d <= 9,
    ensures
        text::decimal(seq![(d + 48) as char]) == Some(d),
        s.len() > 0 && text::decimal(s) is Some ==> text::decimal(s.push((d + 48) as char)) == Some(
            (10 * text::decimal(s)->Some_0 + d) as nat,
        ),
        text::decimal(Seq::<char>::empty()) is None,
{
    let c = (d + 48) as char;
    assert(seq![c].len() == 1);
    assert(s.push(c).drop_last() =~= s);
    assert(s.push(c).last() == c);
}

/// The second scan tries the best threshold with every positive weight, and with no other.
pub proof fn law_positive_weights_are_scanned(beta: Seq<F32>, best: F32, pair: (F32, F32))
    ensures
        params::beta_scan(beta, best).contains(pair) <==> pair.0 == best && beta.contains(pair.1)
            && F32(0).below(pair.1),
    decreases beta.len(),
{
    if beta.len() > 0 {
        let short = beta.drop_last();
        law_positive_weights_are_scanned(short, best, pair);
        let before = params::beta_scan(short, best);
        let all = params::beta_scan(beta, best);
        let l = beta.len() - 1;
        if all.contains(pair) {
            let k = choose|k: int| 0 <= k < all.len() && all[k] == pair;
            if k < before.len() {
                assert(before[k] == pair);
                let j = choose|j: int| 0 <= j < short.len() && short[j] == pair.1;
                assert(beta[j] == pair.1);
            } else {
                assert(beta[l] == pair.1);
            }
        }
        if pair.0 == best && beta.contains(pair.1) && F32(0).below(pair.1) {
            let j = choose|j: int| 0 <= j < beta.len() && beta[j] == pair.1;
            if j < l {
                assert(short[j] == pair.1);
                let k = choose|k: int| 0 <= k < before.len() && before[k] == pair;
                assert(all[k] == pair);
            } else {
                assert(all[all.len() - 1] == pair);
            }
        }
    }
}

/// The last scan tries five thresholds around the best one, each a tenth from the next, with the weights
/// 0.2, 0.3, 0.4 and 0.5: twenty pairs, the weight changing first.
pub proof fn law_fine_scan_surrounds_the_best(best: F32, i: int, j: int)
    requires
        0 <= i < 5,
        0 <= j < 4,
    ensures
        ({
            let pair = params::fine_scan(best)[4 * i + j];
            &&& params::fine_scan(best).len() == 20
            &&& i == 0 ==> pair.0 == best.less(F32(TWO_TENTHS_BITS))
            &&& i == 1 ==> pair.0 == best.less(F32(ONE_TENTH_BITS))
            &&& i == 2 ==> pair.0 == best
            &&& i == 3 ==> pair.0 == best.plus(F32(ONE_TENTH_BITS))
            &&& i == 4 ==> pair.0 == best.plus(F32(TWO_TENTHS_BITS))
            &&& j == 0 ==> pair.1 == F32(TWO_TENTHS_BITS)
            &&& j == 1 ==> pair.1 == F32(THREE_TENTHS_BITS)
            &&& j == 2 ==> pair.1 == F32(FOUR_TENTHS_BITS)
            &&& j == 3 ==> pair.1 == F32(ONE_HALF_BITS)
        }),
{
    assert((4 * i + j) / 4 == i && (4 * i + j) % 4 == j);
}

/// The setting is the size that a text spells, or the one before where it spells none.
pub open spec fn is_size_or(t: Seq<char>, setting: usize, before: usize) -> bool {
    match text::decimal(text::unsigned_part(t)) {
        Some(n) => if n <= usize::MAX {
            setting == n
        } else {
            setting == before
        },
        None => setting == before,
    }
}

/// Every variable of the environment overrides its own setting and no other: a text and a number as they
/// stand, a size where one can be read, a switch by "1" and "true". A variable that is not there overrides
/// nothing.
pub proof fn law_variables_override_their_own_setting(settings: ConfigView, env: EnvView)
    ensures
        ({
            let all = settings.with_env(env);
            &&& env.distance matches Some(x) ==> all.distance == x
            &&& env.distance is None ==> all.distance == settings.distance
            &&& env.m matches Some(t) ==> is_size_or(t, all.m, settings.m)
            &&& env.m is None ==> all.m == settings.m
            &&& env.ef_construction matches Some(t) ==> is_size_or(t, all.ef_construction, settings.ef_construction)
            &&& env.ef_construction is None ==> all.ef_construction == settings.ef_construction
            &&& env.alpha matches Some(x) ==> all.alpha == x
            &&& env.alpha is None ==> all.alpha == settings.alpha
            &&& env.kernel matches Some(x) ==> all.kernel == x
            &&& env.kernel is None ==> all.kernel == settings.kernel
            &&& env.pq_mode matches Some(x) ==> all.pq_mode == x
            &&& env.pq_mode is None ==> all.pq_mode == settings.pq_mode
            &&& env.prefetch_window matches Some(t) ==> is_size_or(t, all.prefetch_window, settings.prefetch_window)
            &&& env.prefetch_window is None ==> all.prefetch_window == settings.prefetch_window
            &&& env.beta matches Some(x) ==> all.beta == x
            &&& env.beta is None ==> all.beta == settings.beta
            &&& env.r_soft_ratio matches Some(x) ==> all.r_soft_ratio == x
            &&& env.r_soft_ratio is None ==> all.r_soft_ratio == settings.r_soft_ratio
            &&& env.gemm_threshold matches Some(t) ==> is_size_or(t, all.gemm_threshold, settings.gemm_threshold)
            &&& env.gemm_threshold is None ==> all.gemm_threshold == settings.gemm_threshold
            &&& env.avx512 matches Some(t) ==> (all.avx512 <==> t == "1"@ || t == "true"@)
            &&& env.avx512 is None ==> all.avx512 == settings.avx512
            &&& env.batch_mode matches Some(t) ==> (all.batch_mode <==> t == "1"@ || t == "true"@)
            &&& env.batch_mode is None ==> all.batch_mode == settings.batch_mode
            &&& env.avq matches Some(t) ==> (all.avq <==> t == "1"@ || t == "true"@)
            &&& env.avq is None ==> all.avq == settings.avq
            &&& env.gemm_path matches Some(t) ==> (all.gemm_path <==> t == "1"@ || t == "true"@)
            &&& env.gemm_path is None ==> all.gemm_path == settings.gemm_path
            &&& env.candidate_count matches Some(t) ==> is_size_or(t, all.candidate_count, settings.candidate_count)
            &&& env.candidate_count is None ==> all.candidate_count == settings.candidate_count
            &&& env.dim matches Some(t) ==> is_size_or(t, all.dim, settings.dim)
            &&& env.dim is None ==> all.dim == settings.dim
            &&& env.k matches Some(t) ==> is_size_or(t, all.k, settings.k)
            &&& env.k is None ==> all.k == settings.k
            &&& env.top_n matches Some(t) ==> is_size_or(t, all.top_n, settings.top_n)
            &&& env.top_n is None ==> all.top_n == settings.top_n
            &&& env.codebook_k matches Some(t) ==> is_size_or(t, all.codebook_k, settings.codebook_k)
            &&& env.codebook_k is None ==> all.codebook_k == settings.codebook_k
            &&& env.sub_dim matches Some(t) ==> is_size_or(t, all.sub_dim, settings.sub_dim)
            &&& env.sub_dim is None ==> all.sub_dim == settings.sub_dim
            &&& env.avq_alpha matches Some(x) ==> all.avq_alpha == x
            &&& env.avq_alpha is None ==> all.avq_alpha == settings.avq_alpha
        }),
{
}

/// The command line overrides every setting but the two that depend on how the program was built, and
/// what the program was built with can only switch those on.
pub proof fn law_the_command_line_overrides(
    settings: ConfigView,
    cli: ConfigView,
    batch_mode: bool,
    avx512: bool,
)
    ensures
        settings.with_cli(cli).avx512 == settings.avx512,
        settings.with_cli(cli).batch_mode == settings.batch_mode,
        (ConfigView { avx512: cli.avx512, batch_mode: cli.batch_mode, ..settings.with_cli(cli) })
            == cli,
        settings.with_features(batch_mode, avx512).batch_mode <==> settings.batch_mode
            || batch_mode,
        settings.with_features(batch_mode, avx512).avx512 <==> settings.avx512 || avx512,
        (ConfigView {
            avx512: settings.avx512,
            batch_mode: settings.batch_mode,
            ..settings.with_features(batch_mode, avx512)
        }) == settings,
{
}

/// Settings pass where, and only where, the rules have no circle and none refuses the settings.
pub proof fn law_verdicts<C: ConfigCheck>(rules: Seq<RuleView<C>>, cfg: ConfigView)
    ensures
        rules::verdict(rules, cfg, Ok(())) <==> rules::acyclic(rules) && forall|j: int|
            0 <= j < rules.len() ==> !rules::refuses(#[trigger] rules[j], cfg),
{
    law_the_first_refusal_counts(rules, cfg);
    match rules::first_violation(rules, cfg) {
        Some(broken) => {
            let i = choose|i: int|
                0 <= i < rules.len() && #[trigger] rules[i] == broken && rules::refuses(
                    rules[i],
                    cfg,
                ) && forall|j: int| 0 <= j < i ==> !rules::refuses(#[trigger] rules[j], cfg);
            assert(rules::refuses(rules[i], cfg));
        },
        None => {},
    }
}

/// A text in lower case has no upper-case letter, is as long, differs only where there was one, and stays
/// as it is when it is put in lower case again.
pub proof fn law_lower_case(s: Seq<char>)
    ensures
        text::lowered_text(s).len() == s.len(),
        forall|i: int|
            0 <= i < s.len() ==> !('A' <= #[trigger] text::lowered_text(s)[i]
                && text::lowered_text(s)[i] <= 'Z'),
        forall|i: int|
            0 <= i < s.len() && !('A' <= s[i] && s[i] <= 'Z') ==> #[trigger] text::lowered_text(
                s,
            )[i] == s[i],
        forall|i: int|
            0 <= i < s.len() && 'A' <= s[i] && s[i] <= 'Z' ==> #[trigger] text::lowered_text(s)[i]
                as int == s[i] as int + ('a' as int - 'A' as int),
        text::lowered_text(text::lowered_text(s)) == text::lowered_text(s),
{
    let t = text::lowered_text(s);
    assert(text::lowered_text(t) =~= t);
}

} // verus!
