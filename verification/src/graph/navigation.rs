//! The anchors above the graph: centroids that a search may start from.
use vstd::prelude::*;
use crate::build::rng;
use crate::build::rng::{ChaCha8Rng, Draw, RngView};
use crate::distance::DistanceKernel;
use crate::distance::root;
use crate::distance::root::integer_root;
use crate::distance::single::{F32, MAX_BITS};
use crate::distance::sums;
use crate::distance::sums::sum;
use crate::graph::centroid;
use crate::graph::search;
use crate::memory::graph::contains;

verus! {

/// How many nodes the clustering looks at, at most.
pub const CLUSTER_SAMPLE: usize = 10_000;

/// How often the clustering is improved, at most.
pub const CLUSTER_ROUNDS: usize = 10;

/// The settings of the navigation layer.
#[derive(Debug, Clone, Copy)]
pub struct NavigationConfig {
    /// Whether there are centroids.
    pub enable_centroid_overlay: bool,
    /// How many; the square root of the number of nodes where nothing is said.
    pub centroid_count: Option<usize>,
}

impl Default for NavigationConfig {
    fn default() -> (c: Self)
        ensures
            c == (NavigationConfig { enable_centroid_overlay: false, centroid_count: None }),
    {
        NavigationConfig { enable_centroid_overlay: false, centroid_count: None }
    }
}

/// What a clustering looks at.
pub struct ClusterSpace {
    /// The sampled points.
    pub points: Seq<Seq<F32>>,
    /// The distance of a point to a center.
    pub dist: spec_fn(Seq<F32>, Seq<F32>) -> F32,
    /// The dimension.
    pub dim: nat,
}

impl ClusterSpace {
    /// The distances of a point to all centers.
    pub open spec fn to_centers(self, i: int, centers: Seq<Seq<F32>>) -> Seq<F32> {
        Seq::new(centers.len(), |j: int| (self.dist)(self.points[i], centers[j]))
    }

    /// The distance of each point to its nearest center.
    pub open spec fn gaps(self, centers: Seq<Seq<F32>>) -> Seq<F32> {
        Seq::new(
            self.points.len(),
            |i: int| centroid::least(self.to_centers(i, centers)).1,
        )
    }

    /// The nearest center of each point, the first where several are.
    pub open spec fn assignment(self, centers: Seq<Seq<F32>>) -> Seq<usize> {
        Seq::new(
            self.points.len(),
            |i: int|
                {
                    let j = centroid::least(self.to_centers(i, centers)).0;
                    (if j < 0 {
                        0
                    } else {
                        j
                    }) as usize
                },
        )
    }

    /// More centers: each time a point is drawn with a probability that grows with the square of
    /// its distance to the nearest center. It ends early where all distances are zero.
    pub open spec fn seeded(
        self,
        centers: Seq<Seq<F32>>,
        rng: RngView,
        more: nat,
    ) -> Seq<Seq<F32>>
        decreases more,
    {
        if more == 0 {
            centers
        } else {
            let gaps = self.gaps(centers);
            let total = sums::total(squares(gaps));
            if total.at_most(F32(0)) {
                centers
            } else {
                let i = drawn(gaps, total, rng.unit(), F32(0), 0);
                self.seeded(
                    centers.push(self.points[i]),
                    rng.after(Draw::U32),
                    (more - 1) as nat,
                )
            }
        }
    }

    /// The sum of component `d` of those of the first `k` points that belong to center `j`.
    pub open spec fn member_sum(self, assigned: Seq<usize>, j: int, d: int, k: int) -> F32
        decreases k,
    {
        if k <= 0 {
            F32(0)
        } else if assigned[k - 1] == j {
            self.member_sum(assigned, j, d, k - 1).plus(self.points[k - 1][d])
        } else {
            self.member_sum(assigned, j, d, k - 1)
        }
    }

    /// Each center moved to the mean of its points, or left where it has none.
    pub open spec fn moved(
        self,
        centers: Seq<Seq<F32>>,
        assigned: Seq<usize>,
    ) -> Seq<Seq<F32>> {
        let n = self.points.len() as int;
        Seq::new(
            centers.len(),
            |j: int|
                if members(assigned, j, n) == 0 {
                    centers[j]
                } else {
                    Seq::new(
                        self.dim,
                        |d: int|
                            self.member_sum(assigned, j, d, n).over(
                                F32::of_int(members(assigned, j, n)),
                            ),
                    )
                },
        )
    }

    /// The centers after at most `rounds` improvements. It ends early where no point changes its
    /// center.
    pub open spec fn improved(
        self,
        centers: Seq<Seq<F32>>,
        assigned: Seq<usize>,
        rounds: nat,
    ) -> Seq<Seq<F32>>
        decreases rounds,
    {
        if rounds == 0 {
            centers
        } else {
            let next = self.assignment(centers);
            if next == assigned {
                centers
            } else {
                self.improved(self.moved(centers, next), next, (rounds - 1) as nat)
            }
        }
    }

    /// The distances of all points to one center.
    pub open spec fn to_point(self, center: Seq<F32>) -> Seq<F32> {
        Seq::new(self.points.len(), |i: int| (self.dist)(self.points[i], center))
    }

    /// The id of the sampled node nearest to each center, each id once. Where no distance is below
    /// the greatest finite number it is node 0.
    pub open spec fn anchors(self, ids: Seq<usize>, centers: Seq<Seq<F32>>) -> Seq<u32>
        decreases centers.len(),
    {
        if centers.len() == 0 {
            Seq::empty()
        } else {
            let before = self.anchors(ids, centers.drop_last());
            let i = centroid::least(self.to_point(centers.last())).0;
            let id = if i < 0 {
                0u32
            } else {
                ids[i] as u32
            };
            if before.contains(id) {
                before
            } else {
                before.push(id)
            }
        }
    }
}

/// The squares of some numbers.
pub open spec fn squares(values: Seq<F32>) -> Seq<F32> {
    Seq::new(values.len(), |i: int| values[i].times(values[i]))
}

/// The first place from `k` on at which the shares of the squares, added up, reach `r`; 0 where
/// they never do.
pub open spec fn drawn(gaps: Seq<F32>, total: F32, r: F32, sum: F32, k: int) -> int
    decreases gaps.len() - k,
{
    if k >= gaps.len() {
        0
    } else {
        let next = sum.plus(gaps[k].times(gaps[k]).over(total));
        if r.at_most(next) {
            k
        } else {
            drawn(gaps, total, r, next, k + 1)
        }
    }
}

/// How many of the first `k` points belong to center `j`.
pub open spec fn members(assigned: Seq<usize>, j: int, k: int) -> nat
    decreases k,
{
    if k <= 0 {
        0
    } else if assigned[k - 1] == j {
        members(assigned, j, k - 1) + 1
    } else {
        members(assigned, j, k - 1)
    }
}

/// The sampled points.
pub open spec fn sampled(vectors: Seq<F32>, dim: nat, ids: Seq<usize>) -> Seq<Seq<F32>> {
    Seq::new(ids.len(), |i: int| search::vector_of(vectors, dim as int, ids[i] as int))
}

/// What a clustering of the given nodes looks at.
pub open spec fn cluster_space<K: DistanceKernel>(
    kernel: &K,
    vectors: Seq<F32>,
    dim: nat,
    ids: Seq<usize>,
) -> ClusterSpace {
    ClusterSpace {
        points: sampled(vectors, dim, ids),
        dist: |a: Seq<F32>, b: Seq<F32>| kernel.dist(a, b),
        dim,
    }
}

/// The anchors of `k` clusters of `n` nodes.
pub open spec fn kmeans<K: DistanceKernel>(
    kernel: &K,
    vectors: Seq<F32>,
    dim: nat,
    n: nat,
    k: nat,
) -> Seq<u32> {
    if k == 0 || n == 0 {
        Seq::empty()
    } else {
        let size = if n <= CLUSTER_SAMPLE {
            n
        } else {
            CLUSTER_SAMPLE as nat
        };
        let r0 = RngView::fresh(42);
        let ids = rng::chacha8_sample(r0.seed, r0.draws, n, size);
        let r1 = r0.after(Draw::Sample { length: n, amount: size });
        let first = rng::chacha8_choose(r1.seed, r1.draws, ids);
        let r2 = r1.after(Draw::Choose { items: ids });
        let space = cluster_space(kernel, vectors, dim, ids);
        let start = seq![search::vector_of(vectors, dim as int, first as int)];
        let centers = space.seeded(start, r2, (k - 1) as nat);
        let zeros = Seq::new(size, |i: int| 0usize);
        space.anchors(ids, space.improved(centers, zeros, CLUSTER_ROUNDS as nat))
    }
}

/// The integer part of the square root.
pub open spec fn whole_root(n: nat) -> nat {
    choose|r: nat| root::is_root_floor(n, 1, r)
}

/// How many anchors are wanted.
pub open spec fn anchor_count(config: NavigationConfig, n: nat) -> nat {
    let want = match config.centroid_count {
        Some(c) => c as nat,
        None => whole_root(n),
    };
    if want <= n {
        want
    } else {
        n
    }
}

/// Where nothing is said of their number, at least one anchor is wanted as soon as there is a node,
/// and no more than there are nodes.
pub proof fn law_a_root_of_anchors_is_wanted(config: NavigationConfig, n: nat)
    requires
        config.centroid_count is None,
    ensures
        anchor_count(config, n) * anchor_count(config, n) <= n,
        n < (anchor_count(config, n) + 1) * (anchor_count(config, n) + 1),
        n > 0 ==> anchor_count(config, n) > 0,
{
    let r = lemma_root_exists(n);
    assert((r * 1) * (r * 1) == r * r);
    assert(((r + 1) * 1) * ((r + 1) * 1) == (r + 1) * (r + 1));
    assert(root::is_root_floor(n, 1, r));
    let w = whole_root(n);
    root::lemma_root_floor_unique(n, 1, r, w);
    assert(r <= n) by (nonlinear_arith)
        requires
            r * r <= n,
            r >= 0,
    ;
}

/// Every number has a root.
proof fn lemma_root_exists(n: nat) -> (r: nat)
    ensures
        r * r <= n,
        n < (r + 1) * (r + 1),
    decreases n,
{
    if n == 0 {
        let r: nat = 0;
        assert(r * r <= n && n < (r + 1) * (r + 1)) by (nonlinear_arith)
            requires
                r == 0,
                n == 0,
        ;
        r
    } else {
        let r = lemma_root_exists((n - 1) as nat);
        let next: nat = r + 1;
        if next * next <= n {
            assert(n < (next + 1) * (next + 1)) by (nonlinear_arith)
                requires
                    n <= (r + 1) * (r + 1),
                    next == r + 1,
            ;
            next
        } else {
            r
        }
    }
}

/// The navigation layer.
pub struct NavigationLayer {
    config: NavigationConfig,
    centroids: Vec<u32>,
}

impl NavigationLayer {
    /// The anchors.
    pub closed spec fn anchors(self) -> Seq<u32> {
        self.centroids@
    }

    /// The settings.
    pub closed spec fn settings(self) -> NavigationConfig {
        self.config
    }

    /// The layer for `n` nodes.
    pub fn new<K: DistanceKernel>(
        kernel: &K,
        n: usize,
        vectors: &[F32],
        dim: usize,
        config: NavigationConfig,
    ) -> (layer: Self)
        requires
            n <= u32::MAX,
            n * dim <= vectors@.len(),
        ensures
            layer.settings() == config,
            layer.anchors().no_duplicates(),
            forall|i: int|
                0 <= i < layer.anchors().len() ==> (#[trigger] layer.anchors()[i]) < n,
            layer.anchors().len() <= anchor_count(config, n as nat),
            config.enable_centroid_overlay && n > 0 && dim > 0 && anchor_count(config, n as nat) > 0
                ==> layer.anchors().len() > 0,
            layer.anchors() == (if config.enable_centroid_overlay && n > 0 && dim > 0 {
                kmeans(kernel, vectors@, dim as nat, n as nat, anchor_count(config, n as nat))
            } else {
                Seq::<u32>::empty()
            }),
    {
        let centroids: Vec<u32> = if config.enable_centroid_overlay && n > 0 && dim > 0 {
            let want: usize = match config.centroid_count {
                Some(c) => c,
                None => {
                    let r: u128 = integer_root(n as u128);
                    proof {
                        assert((r * 1) * (r * 1) == r * r);
                        assert(((r + 1) * 1) * ((r + 1) * 1) == (r + 1) * (r + 1));
                        assert(root::is_root_floor(n as nat, 1, r as nat));
                        root::lemma_root_floor_unique(
                            n as nat,
                            1,
                            r as nat,
                            whole_root(n as nat),
                        );
                        assert(r <= n) by (nonlinear_arith)
                            requires
                                r * r <= n,
                                r >= 0,
                        ;
                    }
                    r as usize
                },
            };
            let count: usize = if want <= n {
                want
            } else {
                n
            };
            kmeans_centroids(kernel, vectors, dim, n, count)
        } else {
            Vec::new()
        };
        let layer = NavigationLayer { config, centroids };
        assert(layer.anchors() =~= layer.centroids@);
        layer
    }

    /// The anchors.
    pub fn centroids(&self) -> (s: &[u32])
        ensures
            s@ == self.anchors(),
    {
        self.centroids.as_slice()
    }

    /// Whether there are anchors.
    pub fn is_overlay_enabled(&self) -> (b: bool)
        ensures
            b == self.settings().enable_centroid_overlay,
    {
        self.config.enable_centroid_overlay
    }
}

/// The vector of a node.
fn point_slice(vectors: &[F32], dim: usize, id: usize) -> (v: &[F32])
    requires
        search::has_vector(vectors@, dim as int, id as int),
    ensures
        v@ == search::vector_of(vectors@, dim as int, id as int),
        v@.len() == dim,
{
    assert(vectors@.len() == vectors.len());
    let start: usize = id * dim;
    &vectors[start..start + dim]
}

/// Every sampled node has a vector.
pub open spec fn ids_valid(vectors: Seq<F32>, dim: int, ids: Seq<usize>) -> bool {
    forall|i: int|
        0 <= i < ids.len() ==> search::has_vector(vectors, dim, (#[trigger] ids[i]) as int)
}

/// The centers as the loops hold them.
pub open spec fn center_views(centers: Seq<Vec<F32>>) -> Seq<Seq<F32>> {
    Seq::new(centers.len(), |j: int| centers[j]@)
}

/// Every center has the dimension of the vectors.
pub open spec fn centers_valid(centers: Seq<Vec<F32>>, dim: int) -> bool {
    forall|j: int| 0 <= j < centers.len() ==> (#[trigger] centers[j])@.len() == dim
}

/// The nearest center of a point.
fn nearest_center<K: DistanceKernel>(
    kernel: &K,
    vectors: &[F32],
    dim: usize,
    ids: &Vec<usize>,
    i: usize,
    centers: &Vec<Vec<F32>>,
) -> (best: usize)
    requires
        ids_valid(vectors@, dim as int, ids@),
        i < ids@.len(),
        centers_valid(centers@, dim as int),
    ensures
        best == cluster_space(kernel, vectors@, dim as nat, ids@).assignment(
            center_views(centers@),
        )[i as int],
        centers@.len() > 0 ==> best < centers@.len(),
{
    let ghost space = cluster_space(kernel, vectors@, dim as nat, ids@);
    let ghost all = space.to_centers(i as int, center_views(centers@));
    assert(search::has_vector(vectors@, dim as int, ids@[i as int] as int));
    let v = point_slice(vectors, dim, ids[i]);
    let mut best: usize = 0;
    let mut best_dist: F32 = F32(MAX_BITS);
    let mut j: usize = 0;
    while j < centers.len()
        invariant
            j <= centers@.len(),
            i < ids@.len(),
            centers_valid(centers@, dim as int),
            space == cluster_space(kernel, vectors@, dim as nat, ids@),
            all == space.to_centers(i as int, center_views(centers@)),
            v@ == space.points[i as int],
            v@.len() == dim,
            best_dist == centroid::least(all.take(j as int)).1,
            best == (if centroid::least(all.take(j as int)).0 < 0 {
                0
            } else {
                centroid::least(all.take(j as int)).0
            }),
            best < j || best == 0,
        decreases centers@.len() - j,
    {
        assert(centers@[j as int]@.len() == dim);
        let d = kernel.distance(v, centers[j].as_slice());
        assert(all.take(j + 1).drop_last() =~= all.take(j as int));
        assert(all.take(j + 1).last() == d);
        if d.lt(best_dist) {
            best_dist = d;
            best = j;
        }
        j += 1;
    }
    assert(all.take(j as int) =~= all);
    best
}

/// Draws further centers.
fn seed_centers<K: DistanceKernel>(
    kernel: &K,
    vectors: &[F32],
    dim: usize,
    ids: &Vec<usize>,
    first: usize,
    k: usize,
    rng: &mut ChaCha8Rng,
) -> (centers: Vec<Vec<F32>>)
    requires
        k >= 1,
        ids@.len() > 0,
        ids_valid(vectors@, dim as int, ids@),
        search::has_vector(vectors@, dim as int, first as int),
    ensures
        centers_valid(centers@, dim as int),
        1 <= centers@.len() <= k,
        center_views(centers@) == cluster_space(kernel, vectors@, dim as nat, ids@).seeded(
            seq![search::vector_of(vectors@, dim as int, first as int)],
            old(rng)@,
            (k - 1) as nat,
        ),
{
    let ghost space = cluster_space(kernel, vectors@, dim as nat, ids@);
    let ghost start = seq![search::vector_of(vectors@, dim as int, first as int)];
    let ghost whole = space.seeded(start, rng@, (k - 1) as nat);
    let mut centers: Vec<Vec<F32>> = Vec::new();
    centers.push(vstd::slice::slice_to_vec(point_slice(vectors, dim, first)));
    assert(center_views(centers@) =~= start);
    let mut gaps = fresh_gaps(kernel, vectors, dim, ids, &centers);
    let mut done: bool = false;
    while !done && centers.len() < k
        invariant
            ids@.len() > 0,
            ids_valid(vectors@, dim as int, ids@),
            space == cluster_space(kernel, vectors@, dim as nat, ids@),
            centers_valid(centers@, dim as int),
            1 <= centers@.len() <= k,
            gaps@ == space.gaps(center_views(centers@)),
            !done ==> whole == space.seeded(
                center_views(centers@),
                rng@,
                (k - centers@.len()) as nat,
            ),
            done ==> whole == center_views(centers@),
        decreases
                k - centers@.len(),
                (if done {
                    0int
                } else {
                    1int
                }),
    {
        let sq = square_all(&gaps);
        let total = sum(&sq);
        if total.le(F32(0)) {
            done = true;
        } else {
            let r = rng.next_unit();
            let i: usize = draw_place(&gaps, total, r);
            let ghost before = center_views(centers@);
            assert(search::has_vector(vectors@, dim as int, ids@[i as int] as int));
            centers.push(vstd::slice::slice_to_vec(point_slice(vectors, dim, ids[i])));
            assert(center_views(centers@) =~= before.push(space.points[i as int]));
            assert(center_views(centers@).drop_last() =~= before);
            update_gaps(kernel, vectors, dim, ids, &centers, &mut gaps);
        }
    }
    centers
}

fn square_all(values: &Vec<F32>) -> (out: Vec<F32>)
    ensures
        out@ == squares(values@),
{
    let mut out: Vec<F32> = Vec::with_capacity(values.len());
    let mut i: usize = 0;
    while i < values.len()
        invariant
            i <= values@.len(),
            out@ == squares(values@).take(i as int),
        decreases values@.len() - i,
    {
        out.push(values[i].mul(values[i]));
        i += 1;
        assert(out@ =~= squares(values@).take(i as int));
    }
    assert(out@ =~= squares(values@));
    out
}

fn draw_place(gaps: &Vec<F32>, total: F32, r: F32) -> (i: usize)
    requires
        gaps@.len() > 0,
    ensures
        i < gaps@.len(),
        i == drawn(gaps@, total, r, F32(0), 0),
{
    let mut cum: F32 = F32(0);
    let mut k: usize = 0;
    while k < gaps.len()
        invariant
            k <= gaps@.len(),
            gaps@.len() > 0,
            drawn(gaps@, total, r, F32(0), 0) == drawn(gaps@, total, r, cum, k as int),
        decreases gaps@.len() - k,
    {
        cum = cum.add(gaps[k].mul(gaps[k]).div(total));
        if cum.ge(r) {
            return k;
        }
        k += 1;
    }
    0
}

fn fresh_gaps<K: DistanceKernel>(
    kernel: &K,
    vectors: &[F32],
    dim: usize,
    ids: &Vec<usize>,
    centers: &Vec<Vec<F32>>,
) -> (gaps: Vec<F32>)
    requires
        ids_valid(vectors@, dim as int, ids@),
        centers_valid(centers@, dim as int),
        centers@.len() == 1,
    ensures
        gaps@ == cluster_space(kernel, vectors@, dim as nat, ids@).gaps(center_views(centers@)),
{
    let ghost space = cluster_space(kernel, vectors@, dim as nat, ids@);
    let mut gaps: Vec<F32> = vec![F32(MAX_BITS);ids.len()];
    proof {
        assert(center_views(centers@).drop_last() =~= Seq::<Seq<F32>>::empty());
        assert(gaps@ =~= space.gaps(center_views(centers@).drop_last()));
    }
    update_gaps(kernel, vectors, dim, ids, centers, &mut gaps);
    gaps
}

/// Takes one more center, the last one, into account.
fn update_gaps<K: DistanceKernel>(
    kernel: &K,
    vectors: &[F32],
    dim: usize,
    ids: &Vec<usize>,
    centers: &Vec<Vec<F32>>,
    gaps: &mut Vec<F32>,
)
    requires
        ids_valid(vectors@, dim as int, ids@),
        centers_valid(centers@, dim as int),
        centers@.len() >= 1,
        old(gaps)@ == cluster_space(kernel, vectors@, dim as nat, ids@).gaps(
            center_views(centers@).drop_last(),
        ),
    ensures
        final(gaps)@ == cluster_space(kernel, vectors@, dim as nat, ids@).gaps(
            center_views(centers@),
        ),
{
    let ghost space = cluster_space(kernel, vectors@, dim as nat, ids@);
    let ghost all = center_views(centers@);
    let ghost before = gaps@;
    let last: usize = centers.len() - 1;
    let mut i: usize = 0;
    while i < ids.len()
        invariant
            i <= ids@.len(),
            ids_valid(vectors@, dim as int, ids@),
            centers_valid(centers@, dim as int),
            last == centers@.len() - 1,
            space == cluster_space(kernel, vectors@, dim as nat, ids@),
            all == center_views(centers@),
            before == space.gaps(all.drop_last()),
            gaps@.len() == ids@.len(),
            forall|m: int|
                0 <= m < ids@.len() ==> #[trigger] gaps@[m] == (if m < i {
                    space.gaps(all)[m]
                } else {
                    before[m]
                }),
        decreases ids@.len() - i,
    {
        assert(search::has_vector(vectors@, dim as int, ids@[i as int] as int));
        assert(centers@[last as int]@.len() == dim);
        let d = kernel.distance(point_slice(vectors, dim, ids[i]), centers[last].as_slice());
        proof {
            let t = space.to_centers(i as int, all);
            assert(t.drop_last() =~= space.to_centers(i as int, all.drop_last()));
            assert(t.last() == d);
        }
        if d.lt(gaps[i]) {
            gaps[i] = d;
        }
        i += 1;
    }
    assert(gaps@ =~= space.gaps(all));
}

/// Assigns every point to its nearest center. Returns whether a point changed its center.
fn assign_all<K: DistanceKernel>(
    kernel: &K,
    vectors: &[F32],
    dim: usize,
    ids: &Vec<usize>,
    centers: &Vec<Vec<F32>>,
    assigned: &mut Vec<usize>,
) -> (changed: bool)
    requires
        ids_valid(vectors@, dim as int, ids@),
        centers_valid(centers@, dim as int),
        centers@.len() >= 1,
        old(assigned)@.len() == ids@.len(),
    ensures
        final(assigned)@ == cluster_space(kernel, vectors@, dim as nat, ids@).assignment(
            center_views(centers@),
        ),
        changed == (final(assigned)@ != old(assigned)@),
        forall|i: int|
            0 <= i < final(assigned)@.len() ==> (#[trigger] final(assigned)@[i]) < centers@.len(),
{
    let ghost space = cluster_space(kernel, vectors@, dim as nat, ids@);
    let ghost want = space.assignment(center_views(centers@));
    let ghost before = assigned@;
    let mut changed: bool = false;
    let mut i: usize = 0;
    while i < ids.len()
        invariant
            i <= ids@.len(),
            ids_valid(vectors@, dim as int, ids@),
            centers_valid(centers@, dim as int),
            centers@.len() >= 1,
            space == cluster_space(kernel, vectors@, dim as nat, ids@),
            want == space.assignment(center_views(centers@)),
            want.len() == ids@.len(),
            before.len() == ids@.len(),
            assigned@.len() == ids@.len(),
            forall|m: int|
                0 <= m < ids@.len() ==> #[trigger] assigned@[m] == (if m < i {
                    want[m]
                } else {
                    before[m]
                }),
            forall|m: int| 0 <= m < i ==> (#[trigger] assigned@[m]) < centers@.len(),
            changed == exists|m: int| 0 <= m < i && #[trigger] before[m] != want[m],
        decreases ids@.len() - i,
    {
        let best: usize = nearest_center(kernel, vectors, dim, ids, i, centers);
        assert(before[i as int] == assigned@[i as int]);
        if assigned[i] != best {
            assigned[i] = best;
            changed = true;
        }
        i += 1;
    }
    assert(assigned@ =~= want);
    proof {
        if !changed {
            assert(before =~= want);
        }
    }
    changed
}

/// Moves every center to the mean of its points.
fn move_centers<K: DistanceKernel>(
    kernel: &K,
    vectors: &[F32],
    dim: usize,
    ids: &Vec<usize>,
    assigned: &Vec<usize>,
    centers: &mut Vec<Vec<F32>>,
)
    requires
        ids_valid(vectors@, dim as int, ids@),
        centers_valid(old(centers)@, dim as int),
        assigned@.len() == ids@.len(),
        forall|i: int|
            0 <= i < assigned@.len() ==> (#[trigger] assigned@[i]) < old(centers)@.len(),
    ensures
        centers_valid(final(centers)@, dim as int),
        final(centers)@.len() == old(centers)@.len(),
        center_views(final(centers)@) == cluster_space(
            kernel,
            vectors@,
            dim as nat,
            ids@,
        ).moved(center_views(old(centers)@), assigned@),
{
    let ghost space = cluster_space(kernel, vectors@, dim as nat, ids@);
    let ghost before = center_views(centers@);
    let ghost n = ids@.len() as int;
    let count: usize = centers.len();
    let mut j: usize = 0;
    while j < count
        invariant
            j <= count,
            count == centers@.len(),
            count == before.len(),
            n == ids@.len(),
            assigned@.len() == ids@.len(),
            ids_valid(vectors@, dim as int, ids@),
            centers_valid(centers@, dim as int),
            space == cluster_space(kernel, vectors@, dim as nat, ids@),
            forall|m: int|
                0 <= m < count ==> (#[trigger] centers@[m])@ == (if m < j {
                    space.moved(before, assigned@)[m]
                } else {
                    before[m]
                }),
        decreases count - j,
    {
        let (members_count, sums) = member_totals(kernel, vectors, dim, ids, assigned, j);
        if members_count > 0 {
            let divisor = F32::from_usize(members_count);
            let mut mean: Vec<F32> = Vec::with_capacity(dim);
            let mut d: usize = 0;
            while d < dim
                invariant
                    d <= dim,
                    dim == sums@.len(),
                    mean@.len() == d,
                    forall|e: int| 0 <= e < d ==> #[trigger] mean@[e] == sums@[e].over(divisor),
                decreases dim - d,
            {
                mean.push(sums[d].div(divisor));
                d += 1;
            }
            assert(mean@ =~= space.moved(before, assigned@)[j as int]);
            centers[j] = mean;
        }
        j += 1;
    }
    assert(center_views(centers@) =~= space.moved(before, assigned@));
}

/// How many points belong to a center, and the sum of their vectors.
fn member_totals<K: DistanceKernel>(
    kernel: &K,
    vectors: &[F32],
    dim: usize,
    ids: &Vec<usize>,
    assigned: &Vec<usize>,
    j: usize,
) -> (r: (usize, Vec<F32>))
    requires
        ids_valid(vectors@, dim as int, ids@),
        assigned@.len() == ids@.len(),
    ensures
        r.0 == members(assigned@, j as int, ids@.len() as int),
        r.1@.len() == dim,
        forall|d: int|
            0 <= d < dim ==> #[trigger] r.1@[d] == cluster_space(
                kernel,
                vectors@,
                dim as nat,
                ids@,
            ).member_sum(assigned@, j as int, d, ids@.len() as int),
{
    let ghost space = cluster_space(kernel, vectors@, dim as nat, ids@);
    let mut count: usize = 0;
    let mut sums: Vec<F32> = vec![F32(0);dim];
    let mut i: usize = 0;
    while i < ids.len()
        invariant
            i <= ids@.len(),
            assigned@.len() == ids@.len(),
            ids_valid(vectors@, dim as int, ids@),
            space == cluster_space(kernel, vectors@, dim as nat, ids@),
            count == members(assigned@, j as int, i as int),
            count <= i,
            sums@.len() == dim,
            forall|d: int|
                0 <= d < dim ==> #[trigger] sums@[d] == space.member_sum(
                    assigned@,
                    j as int,
                    d,
                    i as int,
                ),
        decreases ids@.len() - i,
    {
        if assigned[i] == j {
            assert(search::has_vector(vectors@, dim as int, ids@[i as int] as int));
            let v = point_slice(vectors, dim, ids[i]);
            let ghost before = sums@;
            let mut d: usize = 0;
            while d < dim
                invariant
                    d <= dim,
                    dim == v@.len(),
                    dim == sums@.len(),
                    dim == before.len(),
                    forall|e: int|
                        0 <= e < dim ==> #[trigger] sums@[e] == (if e < d {
                            before[e].plus(v@[e])
                        } else {
                            before[e]
                        }),
                decreases dim - d,
            {
                let s = sums[d].add(v[d]);
                sums[d] = s;
                d += 1;
            }
            assert forall|e: int| 0 <= e < dim implies #[trigger] sums@[e] == space.member_sum(
                assigned@,
                j as int,
                e,
                i + 1,
            ) by {
                assert(before[e] == space.member_sum(assigned@, j as int, e, i as int));
            }
            count += 1;
        }
        i += 1;
    }
    (count, sums)
}

/// The anchors of `k` clusters.
pub fn kmeans_centroids<K: DistanceKernel>(
    kernel: &K,
    vectors: &[F32],
    dim: usize,
    n: usize,
    k: usize,
) -> (result: Vec<u32>)
    requires
        n <= u32::MAX,
        n * dim <= vectors@.len(),
    ensures
        result@ == kmeans(kernel, vectors@, dim as nat, n as nat, k as nat),
        result@.len() <= k,
        k > 0 && n > 0 ==> result@.len() > 0,
        result@.no_duplicates(),
        forall|i: int| 0 <= i < result@.len() ==> (#[trigger] result@[i]) < n,
{
    if k == 0 || n == 0 {
        return Vec::new();
    }
    let size: usize = if n <= CLUSTER_SAMPLE {
        n
    } else {
        CLUSTER_SAMPLE
    };
    let mut rng = ChaCha8Rng::seed_from(42);
    let ids = rng.sample(n, size);
    let first: usize = rng.pick(&ids);
    let ghost space = cluster_space(kernel, vectors@, dim as nat, ids@);
    proof {
        assert forall|i: int| 0 <= i < ids@.len() implies search::has_vector(
            vectors@,
            dim as int,
            (#[trigger] ids@[i]) as int,
        ) by {
            let x = ids@[i] as int;
            assert(0 <= x * dim && x * dim + dim <= n * dim) by (nonlinear_arith)
                requires
                    0 <= x < n,
            ;
        }
        let at = choose|at: int| 0 <= at < ids@.len() && ids@[at] == first;
        assert(search::has_vector(vectors@, dim as int, ids@[at] as int));
    }
    let mut centers = seed_centers(kernel, vectors, dim, &ids, first, k, &mut rng);
    let ghost seeded = center_views(centers@);
    let mut assigned: Vec<usize> = vec![0usize;size];
    let ghost zeros = Seq::new(size as nat, |i: int| 0usize);
    assert(assigned@ =~= zeros);
    let ghost whole = space.improved(seeded, zeros, CLUSTER_ROUNDS as nat);
    let mut left: usize = CLUSTER_ROUNDS;
    let mut done: bool = false;
    while !done && left > 0
        invariant
            left <= CLUSTER_ROUNDS,
            ids_valid(vectors@, dim as int, ids@),
            space == cluster_space(kernel, vectors@, dim as nat, ids@),
            centers_valid(centers@, dim as int),
            1 <= centers@.len() <= k,
            assigned@.len() == ids@.len(),
            !done ==> whole == space.improved(center_views(centers@), assigned@, left as nat),
            done ==> whole == center_views(centers@),
        decreases
                left,
                (if done {
                    0int
                } else {
                    1int
                }),
    {
        let changed: bool = assign_all(kernel, vectors, dim, &ids, &centers, &mut assigned);
        if !changed {
            done = true;
        } else {
            move_centers(kernel, vectors, dim, &ids, &assigned, &mut centers);
            left -= 1;
        }
    }
    assert(whole == center_views(centers@));
    let ghost all = center_views(centers@);
    let mut result: Vec<u32> = Vec::with_capacity(centers.len());
    let mut j: usize = 0;
    while j < centers.len()
        invariant
            j <= centers@.len(),
            n <= u32::MAX,
            ids_valid(vectors@, dim as int, ids@),
            forall|i: int| 0 <= i < ids@.len() ==> (#[trigger] ids@[i]) < n,
            space == cluster_space(kernel, vectors@, dim as nat, ids@),
            centers_valid(centers@, dim as int),
            all == center_views(centers@),
            result@ == space.anchors(ids@, all.take(j as int)),
            n > 0,
            result@.len() <= j,
            j > 0 ==> result@.len() > 0,
            result@.no_duplicates(),
            forall|i: int| 0 <= i < result@.len() ==> (#[trigger] result@[i]) < n,
        decreases centers@.len() - j,
    {
        let best: u32 = nearest_point(kernel, vectors, dim, &ids, &centers[j], n);
        assert(all.take(j + 1).drop_last() =~= all.take(j as int));
        if !contains(result.as_slice(), best) {
            result.push(best);
        }
        j += 1;
    }
    assert(all.take(j as int) =~= all);
    result
}

/// The sampled node nearest to a center.
fn nearest_point<K: DistanceKernel>(
    kernel: &K,
    vectors: &[F32],
    dim: usize,
    ids: &Vec<usize>,
    center: &Vec<F32>,
    n: usize,
) -> (best: u32)
    requires
        n <= u32::MAX,
        ids_valid(vectors@, dim as int, ids@),
        forall|i: int| 0 <= i < ids@.len() ==> (#[trigger] ids@[i]) < n,
        center@.len() == dim,
    ensures
        ({
            let i = centroid::least(
                cluster_space(kernel, vectors@, dim as nat, ids@).to_point(center@),
            ).0;
            best == (if i < 0 {
                0u32
            } else {
                ids@[i] as u32
            })
        }),
        best < n || best == 0,
{
    let ghost space = cluster_space(kernel, vectors@, dim as nat, ids@);
    let ghost all = space.to_point(center@);
    let mut best: u32 = 0;
    let mut best_dist: F32 = F32(MAX_BITS);
    let mut i: usize = 0;
    while i < ids.len()
        invariant
            i <= ids@.len(),
            n <= u32::MAX,
            ids_valid(vectors@, dim as int, ids@),
            forall|m: int| 0 <= m < ids@.len() ==> (#[trigger] ids@[m]) < n,
            center@.len() == dim,
            space == cluster_space(kernel, vectors@, dim as nat, ids@),
            all == space.to_point(center@),
            best_dist == centroid::least(all.take(i as int)).1,
            best == (if centroid::least(all.take(i as int)).0 < 0 {
                0u32
            } else {
                ids@[centroid::least(all.take(i as int)).0] as u32
            }),
            best < n || best == 0,
        decreases ids@.len() - i,
    {
        assert(search::has_vector(vectors@, dim as int, ids@[i as int] as int));
        let d = kernel.distance(point_slice(vectors, dim, ids[i]), center.as_slice());
        assert(all.take(i + 1).drop_last() =~= all.take(i as int));
        assert(all.take(i + 1).last() == d);
        if d.lt(best_dist) {
            best_dist = d;
            best = ids[i] as u32;
        }
        i += 1;
    }
    assert(all.take(i as int) =~= all);
    best
}

} // verus!
