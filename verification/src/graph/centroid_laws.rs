//! What centroids, medoids and clusters are.
use vstd::prelude::*;
use crate::build::rng;
use crate::build::rng::{Draw, RngView};
use crate::distance::DistanceKernel;
use crate::distance::exact_laws;
use crate::distance::single::{F32, MAX_BITS};
use crate::distance::sums;
use crate::graph::centroid;
use crate::graph::navigation;
use crate::graph::navigation::ClusterSpace;
use crate::graph::search;

verus! {

proof fn lemma_component_sum(
    vectors: Seq<F32>,
    dim: int,
    ids: Seq<u32>,
    d: int,
    values: Seq<int>,
)
    requires
        values.len() == ids.len(),
        forall|i: int|
            0 <= i < ids.len() ==> exact_laws::is_whole(
                search::vector_of(vectors, dim, (#[trigger] ids[i]) as int)[d],
                values[i],
            ),
        exact_laws::sum_of(exact_laws::sizes(values)) <= 0x100_0000,
    ensures
        exact_laws::is_whole(
            centroid::component_sum(vectors, dim, ids, d),
            exact_laws::sum_of(values),
        ),
    decreases ids.len(),
{
    exact_laws::lemma_sizes(values);
    if ids.len() == 0 {
        exact_laws::lemma_whole_zero();
    } else {
        let l = ids.len() - 1;
        let short = values.drop_last();
        assert(exact_laws::sizes(values).drop_last() =~= exact_laws::sizes(short));
        exact_laws::lemma_sizes(short);
        assert(exact_laws::is_whole(
            search::vector_of(vectors, dim, ids[l] as int)[d],
            values[l],
        ));
        assert forall|i: int| 0 <= i < ids.drop_last().len() implies exact_laws::is_whole(
            search::vector_of(vectors, dim, (#[trigger] ids.drop_last()[i]) as int)[d],
            short[i],
        ) by {
            assert(exact_laws::is_whole(
                search::vector_of(vectors, dim, ids[i] as int)[d],
                values[i],
            ));
        }
        lemma_component_sum(vectors, dim, ids.drop_last(), d, short);
        exact_laws::lemma_whole_plus(
            centroid::component_sum(vectors, dim, ids.drop_last(), d),
            search::vector_of(vectors, dim, ids.last() as int)[d],
            exact_laws::sum_of(short),
            values.last(),
        );
    }
}

/// A whole number that is a number.
proof fn lemma_count_whole(n: nat)
    requires
        n <= 0x100_0000,
    ensures
        exact_laws::is_whole(F32::of_int(n), n as int),
{
    exact_laws::lemma_of_int(n);
}

/// A component of a centroid is the mean of that component: where the components are whole numbers,
/// of a sum that is not rounded, and their number divides the sum, it is the quotient.
pub proof fn law_centroids_are_means(
    vectors: Seq<F32>,
    dim: nat,
    ids: Seq<u32>,
    d: int,
    values: Seq<int>,
    mean: int,
)
    requires
        0 <= d < dim,
        0 < ids.len() <= 0x100_0000,
        values.len() == ids.len(),
        forall|i: int|
            0 <= i < ids.len() ==> exact_laws::is_whole(
                search::vector_of(vectors, dim as int, (#[trigger] ids[i]) as int)[d],
                values[i],
            ),
        exact_laws::sum_of(exact_laws::sizes(values)) <= 0x100_0000,
        exact_laws::sum_of(values) == mean * ids.len(),
    ensures
        exact_laws::is_whole(centroid::centroid_of(vectors, dim, ids)[d], mean),
{
    lemma_component_sum(vectors, dim as int, ids, d, values);
    lemma_count_whole(ids.len());
    exact_laws::lemma_sizes(values);
    assert(-0x100_0000 <= mean <= 0x100_0000) by (nonlinear_arith)
        requires
            -0x100_0000 <= mean * ids.len() <= 0x100_0000,
            ids.len() >= 1,
    ;
    exact_laws::lemma_whole_over(
        centroid::component_sum(vectors, dim as int, ids, d),
        F32::of_int(ids.len()),
        mean,
        ids.len() as int,
    );
}

/// The medoid of up to ten thousand nodes is a node, and none is nearer to the centroid of them all; of
/// more nodes the same holds within the sample.
pub proof fn law_medoid_is_the_most_central<K: DistanceKernel>(
    kernel: &K,
    vectors: Seq<F32>,
    dim: nat,
    n: nat,
)
    requires
        0 < n <= u32::MAX,
        ({
            let ids = centroid::medoid_candidates(n);
            let center = centroid::centroid_of(vectors, dim, ids);
            &&& ids.len() > 0
            &&& forall|i: int|
                0 <= i < ids.len() ==> kernel.dist(
                    center,
                    search::vector_of(vectors, dim as int, (#[trigger] ids[i]) as int),
                ).below(F32(MAX_BITS))
        }),
    ensures
        ({
            let ids = centroid::medoid_candidates(n);
            let center = centroid::centroid_of(vectors, dim, ids);
            let m = centroid::medoid(kernel, vectors, dim, n);
            &&& n <= 10_000 ==> ids.len() == n && forall|i: int|
                0 <= i < n ==> #[trigger] ids[i] == i
            &&& ids.contains(m)
            &&& forall|i: int|
                0 <= i < ids.len() ==> kernel.dist(
                    center,
                    search::vector_of(vectors, dim as int, m as int),
                ).at_most(
                    kernel.dist(
                        center,
                        search::vector_of(vectors, dim as int, (#[trigger] ids[i]) as int),
                    ),
                )
        }),
{
    let ids = centroid::medoid_candidates(n);
    let center = centroid::centroid_of(vectors, dim, ids);
    let all = centroid::distances_from(kernel, vectors, dim as int, center, ids);
    centroid::lemma_least(all);
    assert(kernel.dist(center, search::vector_of(vectors, dim as int, ids[0] as int)).below(
        F32(MAX_BITS),
    ));
    assert(all[0].below(F32(MAX_BITS)));
    let at = centroid::least(all).0;
    assert(at >= 0);
    assert forall|i: int| 0 <= i < ids.len() implies all[at].at_most(
        kernel.dist(
            center,
            search::vector_of(vectors, dim as int, (#[trigger] ids[i]) as int),
        ),
    ) by {
        assert(!all[i].below(all[at]));
        assert(all[i].below(F32(MAX_BITS)));
    }
}

/// In a clustering each point belongs to a center that no other center is nearer than.
pub proof fn law_points_belong_to_the_nearest_center(
    space: ClusterSpace,
    centers: Seq<Seq<F32>>,
    i: int,
    j: int,
)
    requires
        0 <= i < space.points.len(),
        0 <= j < centers.len() <= usize::MAX,
        forall|m: int|
            0 <= m < centers.len() ==> (space.dist)(
                space.points[i],
                #[trigger] centers[m],
            ).below(F32(MAX_BITS)),
    ensures
        ({
            let own = space.assignment(centers)[i] as int;
            &&& 0 <= own < centers.len()
            &&& (space.dist)(space.points[i], centers[own]).at_most(
                (space.dist)(space.points[i], centers[j]),
            )
            &&& space.gaps(centers)[i] == (space.dist)(space.points[i], centers[own])
        }),
{
    let all = space.to_centers(i, centers);
    centroid::lemma_least(all);
    assert((space.dist)(space.points[i], centers[j]).below(F32(MAX_BITS)));
    assert(all[j].below(F32(MAX_BITS)));
    let at = centroid::least(all).0;
    assert(at >= 0);
    assert(all[at] == (space.dist)(space.points[i], centers[at]));
}

/// The components of the points that belong to a center, in order.
pub open spec fn member_values(assigned: Seq<usize>, j: int, values: Seq<int>, k: int) -> Seq<int>
    decreases k,
{
    if k <= 0 {
        Seq::empty()
    } else if assigned[k - 1] == j {
        member_values(assigned, j, values, k - 1).push(values[k - 1])
    } else {
        member_values(assigned, j, values, k - 1)
    }
}

proof fn lemma_member_sum(
    space: ClusterSpace,
    assigned: Seq<usize>,
    j: int,
    d: int,
    k: int,
    values: Seq<int>,
)
    requires
        0 <= k <= space.points.len(),
        values.len() == space.points.len(),
        forall|i: int|
            0 <= i < space.points.len() ==> exact_laws::is_whole(
                (#[trigger] space.points[i])[d],
                values[i],
            ),
        exact_laws::sum_of(exact_laws::sizes(member_values(assigned, j, values, k)))
            <= 0x100_0000,
    ensures
        exact_laws::is_whole(
            space.member_sum(assigned, j, d, k),
            exact_laws::sum_of(member_values(assigned, j, values, k)),
        ),
        member_values(assigned, j, values, k).len() == navigation::members(assigned, j, k),
    decreases k,
{
    let all = member_values(assigned, j, values, k);
    exact_laws::lemma_sizes(all);
    if k <= 0 {
        exact_laws::lemma_whole_zero();
    } else {
        let short = member_values(assigned, j, values, k - 1);
        if assigned[k - 1] == j {
            assert(all.drop_last() =~= short);
            assert(exact_laws::sizes(all).drop_last() =~= exact_laws::sizes(short));
            exact_laws::lemma_sizes(short);
            lemma_member_sum(space, assigned, j, d, k - 1, values);
            assert(exact_laws::is_whole(space.points[k - 1][d], values[k - 1]));
            exact_laws::lemma_whole_plus(
                space.member_sum(assigned, j, d, k - 1),
                space.points[k - 1][d],
                exact_laws::sum_of(short),
                values[k - 1],
            );
        } else {
            lemma_member_sum(space, assigned, j, d, k - 1, values);
        }
    }
}

/// A center moves to the mean of its points, component by component, and stays where it has none. Where
/// the components are whole numbers and the number of points divides their sum, the mean is the
/// quotient.
pub proof fn law_centers_move_to_the_mean(
    space: ClusterSpace,
    centers: Seq<Seq<F32>>,
    assigned: Seq<usize>,
    j: int,
    d: int,
    values: Seq<int>,
    mean: int,
)
    requires
        0 <= j < centers.len(),
        0 <= d < space.dim,
        values.len() == space.points.len() <= 0x100_0000,
        forall|i: int|
            0 <= i < space.points.len() ==> exact_laws::is_whole(
                (#[trigger] space.points[i])[d],
                values[i],
            ),
    ensures
        ({
            let own = member_values(assigned, j, values, space.points.len() as int);
            let moved = space.moved(centers, assigned);
            &&& moved.len() == centers.len()
            &&& own.len() == 0 ==> moved[j] == centers[j]
            &&& own.len() > 0 && exact_laws::sum_of(exact_laws::sizes(own)) <= 0x100_0000
                && exact_laws::sum_of(own) == mean * own.len() ==> exact_laws::is_whole(
                moved[j][d],
                mean,
            )
        }),
{
    let n = space.points.len() as int;
    let own = member_values(assigned, j, values, n);
    lemma_member_count(assigned, j, values, n);
    if own.len() > 0 && exact_laws::sum_of(exact_laws::sizes(own)) <= 0x100_0000
        && exact_laws::sum_of(own) == mean * own.len() {
        lemma_member_sum(space, assigned, j, d, n, values);
        lemma_count_whole(own.len());
        exact_laws::lemma_sizes(own);
        assert(-0x100_0000 <= mean <= 0x100_0000) by (nonlinear_arith)
            requires
                -0x100_0000 <= mean * own.len() <= 0x100_0000,
                own.len() >= 1,
        ;
        exact_laws::lemma_whole_over(
            space.member_sum(assigned, j, d, n),
            F32::of_int(own.len()),
            mean,
            own.len() as int,
        );
    }
}

proof fn lemma_member_count(assigned: Seq<usize>, j: int, values: Seq<int>, k: int)
    requires
        0 <= k,
    ensures
        member_values(assigned, j, values, k).len() == navigation::members(assigned, j, k),
        member_values(assigned, j, values, k).len() <= k,
    decreases k,
{
    if k > 0 {
        lemma_member_count(assigned, j, values, k - 1);
    }
}

/// Seeding keeps the centers that are there and adds points of the sample, at most as many as asked
/// for. It stops early only where every point lies on a center: where the squared distances to the
/// nearest centers sum to nothing.
pub proof fn law_seeds_are_points(
    space: ClusterSpace,
    centers: Seq<Seq<F32>>,
    source: RngView,
    more: nat,
)
    requires
        space.points.len() > 0,
    ensures
        ({
            let all = space.seeded(centers, source, more);
            &&& centers.is_prefix_of(all)
            &&& all.len() <= centers.len() + more
            &&& forall|j: int|
                centers.len() <= j < all.len() ==> space.points.contains(#[trigger] all[j])
            &&& all.len() < centers.len() + more ==> sums::total(
                navigation::squares(space.gaps(all)),
            ).at_most(F32(0))
        }),
    decreases more,
{
    let all = space.seeded(centers, source, more);
    if more > 0 {
        let gaps = space.gaps(centers);
        let total = sums::total(navigation::squares(gaps));
        if !total.at_most(F32(0)) {
            lemma_drawn(gaps, total, source.unit(), F32(0), 0);
            let i = navigation::drawn(gaps, total, source.unit(), F32(0), 0);
            let next = centers.push(space.points[i]);
            law_seeds_are_points(
                space,
                next,
                source.after(Draw::U32),
                (more - 1) as nat,
            );
            assert(centers =~= all.subrange(0, centers.len() as int)) by {
                assert(next == all.subrange(0, next.len() as int));
                assert forall|k: int| 0 <= k < centers.len() implies centers[k] == all[k] by {
                    assert(next[k] == all.subrange(0, next.len() as int)[k]);
                }
            }
            assert forall|j: int| centers.len() <= j < all.len() implies space.points.contains(
                #[trigger] all[j],
            ) by {
                if j == centers.len() {
                    assert(next[j] == all.subrange(0, next.len() as int)[j]);
                    assert(all[j] == space.points[i]);
                }
            }
        }
    }
}

proof fn lemma_drawn(gaps: Seq<F32>, total: F32, r: F32, sum: F32, k: int)
    requires
        0 <= k <= gaps.len(),
        gaps.len() > 0,
    ensures
        0 <= navigation::drawn(gaps, total, r, sum, k) < gaps.len(),
    decreases gaps.len() - k,
{
    if k < gaps.len() {
        let next = sum.plus(gaps[k].times(gaps[k]).over(total));
        if !r.at_most(next) {
            lemma_drawn(gaps, total, r, next, k + 1);
        }
    }
}

/// Every center has an anchor: the id of a sampled node that no other is nearer to the center than.
pub proof fn law_anchors_stand_for_the_centers(
    space: ClusterSpace,
    ids: Seq<usize>,
    centers: Seq<Seq<F32>>,
    c: int,
) -> (i: int)
    requires
        ids.len() == space.points.len() > 0,
        0 <= c < centers.len(),
        forall|m: int|
            0 <= m < space.points.len() ==> (space.dist)(
                #[trigger] space.points[m],
                centers[c],
            ).below(F32(MAX_BITS)),
    ensures
        0 <= i < ids.len(),
        space.anchors(ids, centers).contains(ids[i] as u32),
        forall|m: int|
            0 <= m < space.points.len() ==> (space.dist)(space.points[i], centers[c]).at_most(
                (space.dist)(#[trigger] space.points[m], centers[c]),
            ),
    decreases centers.len(),
{
    let l = centers.len() - 1;
    let before = space.anchors(ids, centers.drop_last());
    let all = space.anchors(ids, centers);
    if c < l {
        let i = law_anchors_stand_for_the_centers(space, ids, centers.drop_last(), c);
        let k = choose|k: int| 0 <= k < before.len() && before[k] == ids[i] as u32;
        assert(all[k] == ids[i] as u32);
        i
    } else {
        let dists = space.to_point(centers[c]);
        centroid::lemma_least(dists);
        assert((space.dist)(space.points[0], centers[c]).below(F32(MAX_BITS)));
        assert(dists[0].below(F32(MAX_BITS)));
        let i = centroid::least(dists).0;
        assert(i >= 0);
        assert forall|m: int| 0 <= m < space.points.len() implies dists[i].at_most(
            (space.dist)(#[trigger] space.points[m], centers[c]),
        ) by {
            assert(!dists[m].below(dists[i]));
            assert(dists[m].below(F32(MAX_BITS)));
        }
        let id = ids[i] as u32;
        if !before.contains(id) {
            assert(all[before.len() as int] == id);
        }
        i
    }
}

/// The anchors are ids of sampled nodes, each once, and no more than centers.
pub proof fn law_anchors_are_apart(space: ClusterSpace, ids: Seq<usize>, centers: Seq<Seq<F32>>)
    requires
        ids.len() == space.points.len(),
        forall|c: int, m: int|
            0 <= c < centers.len() && 0 <= m < space.points.len() ==> #[trigger] (space.dist)(
                space.points[m],
                centers[c],
            ).below(F32(MAX_BITS)),
        space.points.len() > 0,
    ensures
        ({
            let anchors = space.anchors(ids, centers);
            &&& anchors.no_duplicates()
            &&& anchors.len() <= centers.len()
            &&& forall|j: int|
                0 <= j < anchors.len() ==> exists|i: int|
                    0 <= i < ids.len() && #[trigger] anchors[j] == (#[trigger] ids[i]) as u32
        }),
    decreases centers.len(),
{
    if centers.len() > 0 {
        let l = centers.len() - 1;
        let short = centers.drop_last();
        assert forall|c: int, m: int|
            0 <= c < short.len() && 0 <= m < space.points.len() implies #[trigger] (space.dist)(
            space.points[m],
            short[c],
        ).below(F32(MAX_BITS)) by {
            assert((space.dist)(space.points[m], centers[c]).below(F32(MAX_BITS)));
        }
        law_anchors_are_apart(space, ids, short);
        let before = space.anchors(ids, short);
        let all = space.anchors(ids, centers);
        let dists = space.to_point(centers[l]);
        centroid::lemma_least(dists);
        assert((space.dist)(space.points[0], centers[l]).below(F32(MAX_BITS)));
        assert(dists[0].below(F32(MAX_BITS)));
        let i = centroid::least(dists).0;
        assert(i >= 0);
        assert forall|j: int| 0 <= j < all.len() implies exists|i: int|
            0 <= i < ids.len() && #[trigger] all[j] == (#[trigger] ids[i]) as u32 by {
            if j < before.len() {
                assert(all[j] == before[j]);
            } else {
                assert(all[j] == ids[i] as u32);
            }
        }
    }
}

/// Improving moves centers and adds none; it leaves the centers alone where the points already belong to
/// the nearest, and goes on with the moved ones where they do not.
pub proof fn law_improving_goes_on_until_settled(
    space: ClusterSpace,
    centers: Seq<Seq<F32>>,
    assigned: Seq<usize>,
    rounds: nat,
)
    ensures
        space.improved(centers, assigned, rounds).len() == centers.len(),
        space.assignment(centers) == assigned ==> space.improved(centers, assigned, rounds)
            == centers,
        rounds > 0 && space.assignment(centers) != assigned ==> space.improved(
            centers,
            assigned,
            rounds,
        ) == space.improved(
            space.moved(centers, space.assignment(centers)),
            space.assignment(centers),
            (rounds - 1) as nat,
        ),
    decreases rounds,
{
    if rounds > 0 {
        let next = space.assignment(centers);
        law_improving_goes_on_until_settled(
            space,
            space.moved(centers, next),
            next,
            (rounds - 1) as nat,
        );
    }
}

/// Centers that move to the means of their points, time after time.
pub open spec fn is_course(space: ClusterSpace, course: Seq<Seq<Seq<F32>>>) -> bool {
    &&& course.len() > 0
    &&& forall|i: int|
        0 < i < course.len() ==> #[trigger] course[i] == space.moved(
            course[i - 1],
            space.assignment(course[i - 1]),
        )
}

/// Improving follows such a course. It ends after as many rounds as allowed, or where the points belong
/// to the same centers as before.
pub proof fn law_improving_follows_a_course(
    space: ClusterSpace,
    centers: Seq<Seq<F32>>,
    assigned: Seq<usize>,
    rounds: nat,
) -> (course: Seq<Seq<Seq<F32>>>)
    ensures
        is_course(space, course),
        course[0] == centers,
        course.last() == space.improved(centers, assigned, rounds),
        course.len() <= rounds + 1,
        course.len() < rounds + 1 ==> space.assignment(course.last()) == (if course.len() == 1 {
            assigned
        } else {
            space.assignment(course[course.len() - 2])
        }),
    decreases rounds,
{
    let next = space.assignment(centers);
    if rounds == 0 || next == assigned {
        seq![centers]
    } else {
        let moved = space.moved(centers, next);
        let rest = law_improving_follows_a_course(space, moved, next, (rounds - 1) as nat);
        let course = seq![centers] + rest;
        assert forall|i: int| 0 < i < course.len() implies #[trigger] course[i] == space.moved(
            course[i - 1],
            space.assignment(course[i - 1]),
        ) by {
            assert(course[i] == rest[i - 1]);
            if i > 1 {
                assert(course[i - 1] == rest[i - 2]);
                assert(rest[i - 1] == space.moved(rest[i - 2], space.assignment(rest[i - 2])));
            }
        }
        course
    }
}

/// The anchors of a clustering stand for the centers at the end of a course of at most ten rounds, which
/// starts at no more centers than asked for. The sample has at most ten thousand nodes.
pub proof fn law_clusters_are_improved_ten_times<K: DistanceKernel>(
    kernel: &K,
    vectors: Seq<F32>,
    dim: nat,
    n: nat,
    k: nat,
) -> (found: (Seq<usize>, Seq<Seq<Seq<F32>>>))
    requires
        n > 0,
        k > 0,
        rng::chacha8_sample(
            RngView::fresh(42).seed,
            RngView::fresh(42).draws,
            n,
            if n <= 10_000 {
                n
            } else {
                10_000
            },
        ).len() > 0,
    ensures
        ({
            let (ids, course) = found;
            let space = navigation::cluster_space(kernel, vectors, dim, ids);
            &&& ids == rng::chacha8_sample(
                RngView::fresh(42).seed,
                RngView::fresh(42).draws,
                n,
                if n <= 10_000 {
                    n
                } else {
                    10_000
                },
            )
            &&& is_course(space, course)
            &&& course[0].len() <= k
            &&& course.len() <= 11
            &&& 1 < course.len() < 11 ==> space.assignment(course.last()) == space.assignment(
                course[course.len() - 2],
            )
            &&& navigation::kmeans(kernel, vectors, dim, n, k) == space.anchors(ids, course.last())
        }),
{
    let size: nat = if n <= 10_000 {
        n
    } else {
        10_000
    };
    let r0 = RngView::fresh(42);
    let ids = rng::chacha8_sample(r0.seed, r0.draws, n, size);
    let r1 = r0.after(Draw::Sample { length: n, amount: size });
    let first = rng::chacha8_choose(r1.seed, r1.draws, ids);
    let r2 = r1.after(Draw::Choose { items: ids });
    let space = navigation::cluster_space(kernel, vectors, dim, ids);
    let start = seq![search::vector_of(vectors, dim as int, first as int)];
    law_seeds_are_points(space, start, r2, (k - 1) as nat);
    let centers = space.seeded(start, r2, (k - 1) as nat);
    let zeros = Seq::new(size, |i: int| 0usize);
    let course = law_improving_follows_a_course(space, centers, zeros, 10);
    (ids, course)
}

} // verus!
