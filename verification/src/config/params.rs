//! Which settings a tuning run tries.
use vstd::prelude::*;
use vstd::arithmetic::div_mod;
use crate::config::config::{Config, ConfigView};
use crate::config::text::same_text;
use crate::distance::single::{
    F32, FOUR_TENTHS_BITS, ONE_BITS, ONE_HALF_BITS, ONE_POINT_FIVE_BITS, ONE_POINT_THREE_BITS,
    ONE_POINT_TWO_BITS, ONE_TENTH_BITS, THREE_TENTHS_BITS, TWO_BITS, TWO_TENTHS_BITS,
};

verus! {

/// The values that are tried, for each setting.
#[derive(Debug, Clone)]
pub struct ParamSpace {
    /// How many neighbours a node has in a layer.
    pub m: Vec<usize>,
    /// How wide the searches of a build are.
    pub ef_construction: Vec<usize>,
    /// The occlusion threshold.
    pub alpha: Vec<F32>,
    /// Which kernel computes distances.
    pub kernel: Vec<String>,
    /// How vectors are quantized.
    pub pq_mode: Vec<String>,
    /// How far ahead vectors are fetched.
    pub prefetch_window: Vec<usize>,
    /// The weight of the quantization error.
    pub beta: Vec<F32>,
    /// How far a node may grow past the degree limit during a build.
    pub r_soft_ratio: Vec<F32>,
    /// The number of candidates above which distances are computed as a matrix product.
    pub gemm_threshold: Vec<usize>,
}

/// Texts as plain values.
pub open spec fn texts(v: Seq<String>) -> Seq<Seq<char>> {
    Seq::new(v.len(), |i: int| v[i]@)
}

impl Default for ParamSpace {
    fn default() -> (p: Self)
        ensures
            p.m@ == seq![16usize, 32, 64],
            p.ef_construction@ == seq![100usize, 200, 400],
            p.alpha@ == seq![F32(ONE_BITS), F32(ONE_POINT_TWO_BITS), F32(ONE_POINT_FIVE_BITS)],
            texts(p.kernel@) == seq!["auto"@],
            texts(p.pq_mode@) == seq!["pq"@, "opq"@, "avq"@],
            p.prefetch_window@ == seq![2usize, 4, 8],
            p.beta@ == seq![
                F32(0),
                F32(ONE_TENTH_BITS),
                F32(THREE_TENTHS_BITS),
                F32(ONE_BITS),
            ],
            p.r_soft_ratio@ == seq![
                F32(ONE_POINT_THREE_BITS),
                F32(ONE_POINT_FIVE_BITS),
                F32(TWO_BITS),
            ],
            p.gemm_threshold@ == seq![4usize, 8, 16],
    {
        let p = ParamSpace {
            m: vec![16, 32, 64],
            ef_construction: vec![100, 200, 400],
            alpha: vec![F32(ONE_BITS), F32(ONE_POINT_TWO_BITS), F32(ONE_POINT_FIVE_BITS)],
            kernel: vec!["auto".to_owned()],
            pq_mode: vec!["pq".to_owned(), "opq".to_owned(), "avq".to_owned()],
            prefetch_window: vec![2, 4, 8],
            beta: vec![F32(0), F32(ONE_TENTH_BITS), F32(THREE_TENTHS_BITS), F32(ONE_BITS)],
            r_soft_ratio: vec![
                F32(ONE_POINT_THREE_BITS),
                F32(ONE_POINT_FIVE_BITS),
                F32(TWO_BITS),
            ],
            gemm_threshold: vec![4, 8, 16],
        };
        assert(texts(p.kernel@) =~= seq!["auto"@]);
        assert(texts(p.pq_mode@) =~= seq!["pq"@, "opq"@, "avq"@]);
        p
    }
}

/// A threshold and a weight.
pub type Pair = (F32, F32);

/// The thresholds near the best one.
pub open spec fn fine_alphas(best: F32) -> Seq<F32> {
    seq![
        best.less(F32(TWO_TENTHS_BITS)),
        best.less(F32(ONE_TENTH_BITS)),
        best,
        best.plus(F32(ONE_TENTH_BITS)),
        best.plus(F32(TWO_TENTHS_BITS)),
    ]
}

/// The weights that are tried with them.
pub open spec fn fine_betas() -> Seq<F32> {
    seq![
        F32(TWO_TENTHS_BITS),
        F32(THREE_TENTHS_BITS),
        F32(FOUR_TENTHS_BITS),
        F32(ONE_HALF_BITS),
    ]
}

/// First every threshold without a weight.
pub open spec fn alpha_scan(alpha: Seq<F32>) -> Seq<Pair> {
    Seq::new(alpha.len(), |i: int| (alpha[i], F32(0)))
}

/// Then every positive weight with the best threshold.
pub open spec fn beta_scan(beta: Seq<F32>, best: F32) -> Seq<Pair>
    decreases beta.len(),
{
    if beta.len() == 0 {
        Seq::empty()
    } else {
        let before = beta_scan(beta.drop_last(), best);
        if F32(0).below(beta.last()) {
            before.push((best, beta.last()))
        } else {
            before
        }
    }
}

/// At last every threshold near the best one with every fine weight.
pub open spec fn fine_scan(best: F32) -> Seq<Pair> {
    Seq::new(20, |i: int| (fine_alphas(best)[i / 4], fine_betas()[i % 4]))
}

impl ParamSpace {
    /// The configuration at a place of the grid: the last setting changes fastest, the first one
    /// slowest.
    pub open spec fn grid_at(self, place: int) -> ConfigView {
        let all = self.lengths();
        let mode = self.pq_mode@[digit(all, place, 4)]@;
        ConfigView {
            m: self.m@[digit(all, place, 0)],
            ef_construction: self.ef_construction@[digit(all, place, 1)],
            alpha: self.alpha@[digit(all, place, 2)],
            kernel: self.kernel@[digit(all, place, 3)]@,
            pq_mode: mode,
            prefetch_window: self.prefetch_window@[digit(all, place, 5)],
            beta: self.beta@[digit(all, place, 6)],
            r_soft_ratio: self.r_soft_ratio@[digit(all, place, 7)],
            gemm_threshold: self.gemm_threshold@[digit(all, place, 8)],
            avq: mode == "avq"@,
            ..ConfigView::built_in()
        }
    }

    /// The threshold and weight pairs of a tuning in three steps: every threshold alone, then every
    /// weight with the best threshold, then both around the best.
    pub fn coordinated_alpha_beta_scan(&self, optimal_alpha: F32) -> (pairs: Vec<(F32, F32)>)
        ensures
            pairs@ == alpha_scan(self.alpha@) + beta_scan(self.beta@, optimal_alpha) + fine_scan(
                optimal_alpha,
            ),
    {
        let mut pairs: Vec<(F32, F32)> = Vec::new();
        let ghost first = alpha_scan(self.alpha@);
        let mut i: usize = 0;
        while i < self.alpha.len()
            invariant
                i <= self.alpha@.len(),
                first == alpha_scan(self.alpha@),
                pairs@ == first.take(i as int),
            decreases self.alpha@.len() - i,
        {
            pairs.push((self.alpha[i], F32(0)));
            i += 1;
            assert(pairs@ =~= first.take(i as int));
        }
        assert(pairs@ =~= first + beta_scan(self.beta@.take(0), optimal_alpha));
        let mut j: usize = 0;
        while j < self.beta.len()
            invariant
                j <= self.beta@.len(),
                pairs@ == first + beta_scan(self.beta@.take(j as int), optimal_alpha),
            decreases self.beta@.len() - j,
        {
            assert(self.beta@.take(j + 1).drop_last() =~= self.beta@.take(j as int));
            let beta: F32 = self.beta[j];
            if beta.gt(F32(0)) {
                pairs.push((optimal_alpha, beta));
            }
            j += 1;
            assert(pairs@ =~= first + beta_scan(self.beta@.take(j as int), optimal_alpha));
        }
        assert(self.beta@.take(j as int) =~= self.beta@);
        let fine_a = [
            optimal_alpha.sub(F32(TWO_TENTHS_BITS)),
            optimal_alpha.sub(F32(ONE_TENTH_BITS)),
            optimal_alpha,
            optimal_alpha.add(F32(ONE_TENTH_BITS)),
            optimal_alpha.add(F32(TWO_TENTHS_BITS)),
        ];
        let fine_b = [
            F32(TWO_TENTHS_BITS),
            F32(THREE_TENTHS_BITS),
            F32(FOUR_TENTHS_BITS),
            F32(ONE_HALF_BITS),
        ];
        assert(fine_a@ =~= fine_alphas(optimal_alpha));
        assert(fine_b@ =~= fine_betas());
        let ghost before = pairs@;
        let ghost fine = fine_scan(optimal_alpha);
        let mut k: usize = 0;
        assert(pairs@ =~= before + fine.take(0));
        while k < 20
            invariant
                k <= 20,
                fine_a@ == fine_alphas(optimal_alpha),
                fine_b@ == fine_betas(),
                fine == fine_scan(optimal_alpha),
                pairs@ == before + fine.take(k as int),
            decreases 20 - k,
        {
            pairs.push((fine_a[k / 4], fine_b[k % 4]));
            k += 1;
            assert(pairs@ =~= before + fine.take(k as int));
        }
        assert(fine.take(k as int) =~= fine);
        pairs
    }

    /// All configurations of the grid: every combination of all values.
    pub fn full_grid(&self) -> (configs: Vec<Config>)
        requires
            self.combinations() <= usize::MAX,
        ensures
            configs@.len() == self.combinations(),
            forall|i: int|
                0 <= i < configs@.len() ==> (#[trigger] configs@[i])@ == self.grid_at(i),
    {
        let total: usize = self.total_combinations();
        let ghost all = self.lengths();
        let mut configs: Vec<Config> = Vec::new();
        let mut place: usize = 0;
        while place < total
            invariant
                place <= total,
                all == self.lengths(),
                total == product(all),
                configs@.len() == place,
                forall|i: int|
                    0 <= i < configs@.len() ==> (#[trigger] configs@[i])@ == self.grid_at(i),
            decreases total - place,
        {
            proof {
                lemma_factors(all);
                assert(all[0] > 0 && all[1] > 0 && all[2] > 0 && all[3] > 0 && all[4] > 0);
                assert(all[5] > 0 && all[6] > 0 && all[7] > 0 && all[8] > 0);
                reveal_with_fuel(upper, 10);
            }
            let p7: usize = place / self.gemm_threshold.len();
            let p6: usize = p7 / self.r_soft_ratio.len();
            let p5: usize = p6 / self.beta.len();
            let p4: usize = p5 / self.prefetch_window.len();
            let p3: usize = p4 / self.pq_mode.len();
            let p2: usize = p3 / self.kernel.len();
            let p1: usize = p2 / self.alpha.len();
            let p0: usize = p1 / self.ef_construction.len();
            assert(p0 == upper(all, place as int, 0));
            let mode = &self.pq_mode[p4 % self.pq_mode.len()];
            let mut c = Config::default();
            c.m = self.m[p0 % self.m.len()];
            c.ef_construction = self.ef_construction[p1 % self.ef_construction.len()];
            c.alpha = self.alpha[p2 % self.alpha.len()];
            c.kernel = self.kernel[p3 % self.kernel.len()].clone();
            c.pq_mode = mode.clone();
            c.prefetch_window = self.prefetch_window[p5 % self.prefetch_window.len()];
            c.beta = self.beta[p6 % self.beta.len()];
            c.r_soft_ratio = self.r_soft_ratio[p7 % self.r_soft_ratio.len()];
            c.gemm_threshold = self.gemm_threshold[place % self.gemm_threshold.len()];
            c.avq = same_text(mode.as_str(), "avq");
            assert(c@ == self.grid_at(place as int));
            configs.push(c);
            place += 1;
        }
        configs
    }

    /// How many combinations of all values there are.
    pub fn total_combinations(&self) -> (n: usize)
        requires
            self.combinations() <= usize::MAX,
        ensures
            n == self.combinations(),
    {
        let lens = [
            self.m.len(),
            self.ef_construction.len(),
            self.alpha.len(),
            self.kernel.len(),
            self.pq_mode.len(),
            self.prefetch_window.len(),
            self.beta.len(),
            self.r_soft_ratio.len(),
            self.gemm_threshold.len(),
        ];
        let ghost all = self.lengths();
        assert(lens@.map_values(|x: usize| x as int) =~= all);
        let mut i: usize = 0;
        while i < 9
            invariant
                i <= 9,
                all == self.lengths(),
                all.len() == 9,
                lens@.len() == 9,
                forall|k: int| 0 <= k < 9 ==> lens@[k] == #[trigger] all[k],
                forall|k: int| 0 <= k < i ==> #[trigger] all[k] != 0,
            decreases 9 - i,
        {
            assert(lens@[i as int] == all[i as int]);
            if lens[i] == 0 {
                proof {
                    lemma_product_zero(all, i as int);
                }
                return 0;
            }
            i += 1;
        }
        let mut n: usize = 1;
        let mut k: usize = 0;
        assert(all.take(0) =~= Seq::<int>::empty());
        while k < 9
            invariant
                k <= 9,
                all.len() == 9,
                lens@.len() == 9,
                forall|j: int| 0 <= j < 9 ==> lens@[j] == #[trigger] all[j],
                forall|j: int| 0 <= j < 9 ==> #[trigger] all[j] >= 1,
                product(all) <= usize::MAX,
                n == product(all.take(k as int)),
            decreases 9 - k,
        {
            proof {
                assert(all.take(k + 1).drop_last() =~= all.take(k as int));
                assert(lens@[k as int] == all[k as int]);
                lemma_product_grows(all, k + 1);
                assert(n * lens@[k as int] == product(all.take(k + 1)));
            }
            n = n * lens[k];
            k += 1;
        }
        assert(all.take(k as int) =~= all);
        n
    }

    /// How many values are tried, for each setting.
    pub open spec fn lengths(self) -> Seq<int> {
        seq![
            self.m@.len() as int,
            self.ef_construction@.len() as int,
            self.alpha@.len() as int,
            self.kernel@.len() as int,
            self.pq_mode@.len() as int,
            self.prefetch_window@.len() as int,
            self.beta@.len() as int,
            self.r_soft_ratio@.len() as int,
            self.gemm_threshold@.len() as int,
        ]
    }

    /// How many combinations of all values there are.
    pub open spec fn combinations(self) -> int {
        product(self.lengths())
    }
}

/// The product of a list.
pub open spec fn product(s: Seq<int>) -> int
    decreases s.len(),
{
    if s.len() == 0 {
        1
    } else {
        product(s.drop_last()) * s.last()
    }
}

proof fn lemma_product_zero(s: Seq<int>, i: int)
    requires
        0 <= i < s.len(),
        s[i] == 0,
    ensures
        product(s) == 0,
    decreases s.len(),
{
    if i == s.len() - 1 {
        assert(product(s.drop_last()) * 0 == 0) by (nonlinear_arith);
    } else {
        lemma_product_zero(s.drop_last(), i);
        assert(0 * s.last() == 0) by (nonlinear_arith);
    }
}

proof fn lemma_product_grows(s: Seq<int>, k: int)
    requires
        0 <= k <= s.len(),
        forall|i: int| 0 <= i < s.len() ==> #[trigger] s[i] >= 1,
    ensures
        1 <= product(s.take(k)) <= product(s),
    decreases s.len(),
{
    if k == s.len() {
        assert(s.take(k) =~= s);
        if s.len() > 0 {
            let t = s.drop_last();
            assert forall|i: int| 0 <= i < t.len() implies #[trigger] t[i] >= 1 by {
                assert(t[i] == s[i]);
            }
            lemma_product_grows(t, t.len() as int);
            assert(t.take(t.len() as int) =~= t);
            assert(s[s.len() - 1] >= 1);
            assert(product(t) * s.last() >= 1) by (nonlinear_arith)
                requires
                    product(t) >= 1,
                    s.last() >= 1,
            ;
        }
    } else {
        let t = s.drop_last();
        assert forall|i: int| 0 <= i < t.len() implies #[trigger] t[i] >= 1 by {
            assert(t[i] == s[i]);
        }
        lemma_product_grows(t, k);
        assert(t.take(k) =~= s.take(k));
        assert(s[s.len() - 1] >= 1);
        assert(product(t) * s.last() >= product(t)) by (nonlinear_arith)
            requires
                product(t) >= 1,
                s.last() >= 1,
        ;
    }
}

proof fn lemma_factors(s: Seq<int>)
    requires
        product(s) > 0,
        forall|i: int| 0 <= i < s.len() ==> #[trigger] s[i] >= 0,
    ensures
        forall|i: int| 0 <= i < s.len() ==> #[trigger] s[i] > 0,
{
    assert forall|i: int| 0 <= i < s.len() implies #[trigger] s[i] > 0 by {
        if s[i] == 0 {
            lemma_product_zero(s, i);
        }
    }
}

/// What is left of a place when the digits behind the `j`-th are cut off.
pub open spec fn upper(lengths: Seq<int>, place: int, j: int) -> int
    decreases lengths.len() - j,
{
    if j >= lengths.len() - 1 {
        place
    } else {
        upper(lengths, place, j + 1) / lengths[j + 1]
    }
}

/// The `j`-th digit of a place, where the digit counts to `lengths[j]`.
pub open spec fn digit(lengths: Seq<int>, place: int, j: int) -> int {
    upper(lengths, place, j) % lengths[j]
}

/// The place with the first `k` of these digits.
pub open spec fn place_with(lengths: Seq<int>, digits: Seq<int>, k: int) -> int
    decreases k,
{
    if k <= 0 {
        0
    } else {
        place_with(lengths, digits, k - 1) * lengths[k - 1] + digits[k - 1]
    }
}

/// Digits, one for each length and below it.
pub open spec fn are_digits(lengths: Seq<int>, digits: Seq<int>) -> bool {
    &&& digits.len() == lengths.len()
    &&& forall|j: int| 0 <= j < digits.len() ==> 0 <= (#[trigger] digits[j]) < lengths[j]
}

proof fn lemma_place_below(lengths: Seq<int>, digits: Seq<int>, k: int)
    requires
        are_digits(lengths, digits),
        0 <= k <= lengths.len(),
    ensures
        0 <= place_with(lengths, digits, k) < product(lengths.take(k)),
    decreases k,
{
    if k > 0 {
        lemma_place_below(lengths, digits, k - 1);
        assert(lengths.take(k).drop_last() =~= lengths.take(k - 1));
        let p = place_with(lengths, digits, k - 1);
        let q = product(lengths.take(k - 1));
        let n = lengths[k - 1];
        let d = digits[k - 1];
        assert(0 <= d < n);
        assert(0 <= p * n + d < q * n) by (nonlinear_arith)
            requires
                0 <= p < q,
                0 <= d < n,
        ;
    }
}

proof fn lemma_upper_of_place(lengths: Seq<int>, digits: Seq<int>, j: int)
    requires
        are_digits(lengths, digits),
        0 <= j < lengths.len(),
    ensures
        upper(lengths, place_with(lengths, digits, lengths.len() as int), j) == place_with(
            lengths,
            digits,
            j + 1,
        ),
        digit(lengths, place_with(lengths, digits, lengths.len() as int), j) == digits[j],
    decreases lengths.len() - j,
{
    let whole = place_with(lengths, digits, lengths.len() as int);
    if j < lengths.len() - 1 {
        lemma_upper_of_place(lengths, digits, j + 1);
        lemma_place_below(lengths, digits, j + 1);
        assert(0 <= digits[j + 1] < lengths[j + 1]);
        div_mod::lemma_fundamental_div_mod_converse(
            place_with(lengths, digits, j + 2),
            lengths[j + 1],
            place_with(lengths, digits, j + 1),
            digits[j + 1],
        );
    }
    assert(0 <= digits[j] < lengths[j]);
    div_mod::lemma_fundamental_div_mod_converse(
        place_with(lengths, digits, j + 1),
        lengths[j],
        place_with(lengths, digits, j),
        digits[j],
    );
}

/// The grid is complete: whatever value is picked for each setting, one place of the grid has them
/// all.
pub proof fn law_grid_is_complete(space: ParamSpace, digits: Seq<int>)
    requires
        are_digits(space.lengths(), digits),
    ensures
        ({
            let place = place_with(space.lengths(), digits, 9);
            let at = space.grid_at(place);
            &&& 0 <= place < space.combinations()
            &&& at.m == space.m@[digits[0]]
            &&& at.ef_construction == space.ef_construction@[digits[1]]
            &&& at.alpha == space.alpha@[digits[2]]
            &&& at.kernel == space.kernel@[digits[3]]@
            &&& at.pq_mode == space.pq_mode@[digits[4]]@
            &&& at.prefetch_window == space.prefetch_window@[digits[5]]
            &&& at.beta == space.beta@[digits[6]]
            &&& at.r_soft_ratio == space.r_soft_ratio@[digits[7]]
            &&& at.gemm_threshold == space.gemm_threshold@[digits[8]]
        }),
{
    let all = space.lengths();
    lemma_place_below(all, digits, 9);
    assert(all.take(9) =~= all);
    lemma_upper_of_place(all, digits, 0);
    lemma_upper_of_place(all, digits, 1);
    lemma_upper_of_place(all, digits, 2);
    lemma_upper_of_place(all, digits, 3);
    lemma_upper_of_place(all, digits, 4);
    lemma_upper_of_place(all, digits, 5);
    lemma_upper_of_place(all, digits, 6);
    lemma_upper_of_place(all, digits, 7);
    lemma_upper_of_place(all, digits, 8);
}

} // verus!
