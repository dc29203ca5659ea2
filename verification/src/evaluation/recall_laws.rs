//! What a recall counts, and where the ids of answers stand.
use vstd::prelude::*;
use crate::distance::single::F32;
use crate::evaluation::binding;
use crate::evaluation::scan;
use crate::evaluation::vecs;
use crate::memory::codec;
use crate::memory::layout_laws;

verus! {

/// The places of the true neighbours that were found, among the first `i`.
pub open spec fn places_found(found: Seq<u32>, truth: Seq<i32>, i: int) -> Set<int> {
    vstd::set_lib::set_int_range(0, i).filter(|p: int| found.contains(truth[p] as u32))
}

/// A recall counts the places of the true neighbours that were found.
pub proof fn law_recall_counts_places(found: Seq<u32>, truth: Seq<i32>, i: int)
    requires
        0 <= i,
    ensures
        places_found(found, truth, i).finite(),
        scan::truths_found(found, truth, i) == places_found(found, truth, i).len(),
    decreases i,
{
    vstd::set_lib::lemma_int_range(0, i);
    if i > 0 {
        law_recall_counts_places(found, truth, i - 1);
        let before = places_found(found, truth, i - 1);
        let all = places_found(found, truth, i);
        if found.contains(truth[i - 1] as u32) {
            assert(all =~= before.insert(i - 1));
        } else {
            assert(all =~= before);
        }
    } else {
        assert(places_found(found, truth, i) =~= Set::empty());
    }
}

proof fn lemma_found_limits(found: Seq<u32>, truth: Seq<i32>, i: int)
    requires
        0 <= i,
    ensures
        0 <= scan::truths_found(found, truth, i) <= i,
        scan::truths_found(found, truth, i) == i <==> forall|p: int|
            0 <= p < i ==> found.contains((#[trigger] truth[p]) as u32),
        scan::truths_found(found, truth, i) == 0 <==> forall|p: int|
            0 <= p < i ==> !found.contains((#[trigger] truth[p]) as u32),
    decreases i,
{
    if i > 0 {
        lemma_found_limits(found, truth, i - 1);
        assert(0 <= i - 1 < i);
        let last = truth[i - 1];
        if found.contains(last as u32) {
            assert(!(forall|p: int| 0 <= p < i ==> !found.contains((#[trigger] truth[p]) as u32)));
        } else {
            assert(!(forall|p: int| 0 <= p < i ==> found.contains((#[trigger] truth[p]) as u32)));
        }
    }
}

/// A true neighbour of a query is the one at its place in the row of the query.
pub open spec fn is_found(
    found: Seq<Seq<u32>>,
    truth: Seq<i32>,
    stride: int,
    q: int,
    p: int,
) -> bool {
    found[q].contains(truth[q * stride + p] as u32)
}

/// The recall of some queries is full where every true neighbour that counts was found, and only
/// there, and it is nothing where none was found, and only there. What counts of the true neighbours of
/// a query are the first `k` of its row.
pub proof fn law_recall_at_the_ends(
    found: Seq<Seq<u32>>,
    truth: Seq<i32>,
    stride: int,
    k: int,
    nq: int,
)
    requires
        0 <= nq <= found.len(),
        0 <= k,
        scan::truth_covers(truth, stride, k, nq),
    ensures
        0 <= scan::all_found(found, truth, stride, k, nq) <= nq * k,
        scan::all_found(found, truth, stride, k, nq) == nq * k <==> forall|q: int, p: int|
            0 <= q < nq && 0 <= p < k ==> #[trigger] is_found(found, truth, stride, q, p),
        scan::all_found(found, truth, stride, k, nq) == 0 <==> forall|q: int, p: int|
            0 <= q < nq && 0 <= p < k ==> !#[trigger] is_found(found, truth, stride, q, p),
    decreases nq,
{
    if nq > 0 {
        let last = nq - 1;
        law_recall_at_the_ends(found, truth, stride, k, last);
        assert(last * stride + k <= truth.len() && 0 <= last * stride);
        let row = scan::truth_row(truth, stride, k, last);
        lemma_found_limits(found[last], row, k);
        assert(nq * k == last * k + k) by (nonlinear_arith)
            requires
                nq == last + 1,
        ;
        let hits = scan::truths_found(found[last], row, k);
        let before = scan::all_found(found, truth, stride, k, last);
        assert forall|p: int| 0 <= p < k implies is_found(found, truth, stride, last, p)
            == found[last].contains((#[trigger] row[p]) as u32) by {}
        if before + hits == nq * k {
            assert forall|q: int, p: int|
                0 <= q < nq && 0 <= p < k implies #[trigger] is_found(
                found,
                truth,
                stride,
                q,
                p,
            ) by {
                if q == last {
                    assert(found[last].contains(row[p] as u32));
                }
            }
        } else if hits < k {
            let p = choose|p: int|
                0 <= p < k && !found[last].contains((#[trigger] row[p]) as u32);
            assert(!is_found(found, truth, stride, last, p));
        } else {
            let (q, p) = choose|q: int, p: int|
                0 <= q < last && 0 <= p < k && !#[trigger] is_found(found, truth, stride, q, p);
            assert(0 <= q < nq);
        }
        if before + hits == 0 {
            assert forall|q: int, p: int|
                0 <= q < nq && 0 <= p < k implies !#[trigger] is_found(
                found,
                truth,
                stride,
                q,
                p,
            ) by {
                if q == last {
                    assert(!found[last].contains(row[p] as u32));
                }
            }
        } else if hits > 0 {
            let p = choose|p: int| 0 <= p < k && found[last].contains((#[trigger] row[p]) as u32);
            assert(is_found(found, truth, stride, last, p));
        } else {
            let (q, p) = choose|q: int, p: int|
                0 <= q < last && 0 <= p < k && #[trigger] is_found(found, truth, stride, q, p);
            assert(0 <= q < nq);
        }
    } else {
        assert(nq * k == 0) by (nonlinear_arith)
            requires
                nq == 0,
        ;
    }
}

/// In the table of ids, the answers to a query stand in its row, in order, and zero stands where there
/// are fewer than columns.
pub proof fn law_ids_stand_in_rows(answers: Seq<Vec<(u32, F32)>>, k: nat, n: int, q: int, j: int)
    requires
        0 <= q < n <= answers.len(),
        0 <= j < k,
    ensures
        binding::flat(answers, k, n).len() == n * k,
        0 <= q * k + j < n * k,
        binding::flat(answers, k, n)[q * k + j] == (if j < answers[q]@.len() {
            answers[q]@[j].0 as usize
        } else {
            0usize
        }),
    decreases n,
{
    lemma_flat_len(answers, k, n);
    lemma_flat_len(answers, k, n - 1);
    assert(0 <= q * k + j < n * k) by (nonlinear_arith)
        requires
            0 <= q < n,
            0 <= j < k,
    ;
    if q < n - 1 {
        law_ids_stand_in_rows(answers, k, n - 1, q, j);
    } else {
        assert(q == n - 1);
    }
}

proof fn lemma_flat_len(answers: Seq<Vec<(u32, F32)>>, k: nat, n: int)
    requires
        0 <= n,
    ensures
        binding::flat(answers, k, n).len() == n * k,
    decreases n,
{
    if n > 0 {
        lemma_flat_len(answers, k, n - 1);
        assert(n * k == (n - 1) * k + k) by (nonlinear_arith);
    } else {
        assert(n * k == 0) by (nonlinear_arith)
            requires
                n == 0,
        ;
    }
}

/// A component of a record is spelled by the four bytes at its place behind the dimension that each
/// record starts with, the least significant byte first.
pub proof fn law_components_stand_in_records(bytes: Seq<u8>, records: nat, r: int, j: int)
    requires
        vecs::readable(bytes),
        0 <= r < records,
        0 <= j < vecs::dim_of(bytes),
        records * (4 + 4 * vecs::dim_of(bytes)) <= bytes.len(),
    ensures
        ({
            let dim = layout_laws::number_at(bytes, 0, 4) as int;
            &&& vecs::dim_of(bytes) == dim
            &&& 0 <= r * dim + j < vecs::components_of(bytes, records).len()
            &&& vecs::components_of(bytes, records)[r * dim + j] == layout_laws::number_at(
                bytes,
                r * (4 + 4 * dim) + 4 + 4 * j,
                4,
            )
        }),
    decreases records,
{
    let dim = vecs::dim_of(bytes);
    layout_laws::lemma_four(bytes, 0);
    let last = (records - 1) as nat;
    vecs::law_components_fill_the_records(bytes, records);
    vecs::law_components_fill_the_records(bytes, last);
    assert(records * dim == last * dim + dim) by (nonlinear_arith)
        requires
            records == last + 1,
    ;
    assert(0 <= r * dim + j < records * dim) by (nonlinear_arith)
        requires
            0 <= r < records,
            0 <= j < dim,
    ;
    if r < last {
        assert(last * (4 + 4 * dim) <= records * (4 + 4 * dim)) by (nonlinear_arith)
            requires
                last <= records,
                dim >= 0,
        ;
        law_components_stand_in_records(bytes, last, r, j);
    } else {
        let off = r * (4 + 4 * dim) + 4;
        layout_laws::lemma_four(bytes, off + 4 * j);
        assert(vecs::components_of(bytes, records)[r * dim + j] == codec::get_words(
            bytes,
            off,
            dim as nat,
        )[j]);
        let x = codec::get32(bytes, off + 4 * j);
        assert(0 <= x <= u32::MAX);
    }
}

/// The whole records of a file are as many as fit: one more would go past its end.
pub proof fn law_whole_records_fit(bytes: Seq<u8>)
    requires
        vecs::readable(bytes),
    ensures
        ({
            let len = 4 + 4 * layout_laws::number_at(bytes, 0, 4);
            &&& vecs::records_of(bytes) * len <= bytes.len()
            &&& bytes.len() < (vecs::records_of(bytes) + 1) * len
        }),
{
    layout_laws::lemma_four(bytes, 0);
    let len = vecs::record_len(bytes);
    let n = bytes.len() as int;
    let q = n / len;
    vstd::arithmetic::div_mod::lemma_fundamental_div_mod(n, len);
    assert(q >= 0) by (nonlinear_arith)
        requires
            n == len * q + n % len,
            n % len < len,
            n >= 0,
            len > 0,
    ;
    assert(q * len <= n < (q + 1) * len) by (nonlinear_arith)
        requires
            n == len * q + n % len,
            0 <= n % len < len,
    ;
}

} // verus!
