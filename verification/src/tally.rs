//! How many entries of a list have a property, and where an entry stands among the others.
use vstd::prelude::*;

verus! {

/// How many entries have the property.
pub open spec fn tally<T>(s: Seq<T>, p: spec_fn(T) -> bool) -> nat
    decreases s.len(),
{
    if s.len() == 0 {
        0
    } else {
        tally(s.drop_last(), p) + (if p(s.last()) {
            1nat
        } else {
            0nat
        })
    }
}

/// One more entry counts by itself, wherever it stands.
pub proof fn lemma_insert<T>(s: Seq<T>, i: int, x: T, p: spec_fn(T) -> bool)
    requires
        0 <= i <= s.len(),
    ensures
        tally(s.insert(i, x), p) == tally(s, p) + (if p(x) {
            1nat
        } else {
            0nat
        }),
    decreases s.len(),
{
    let t = s.insert(i, x);
    if i == s.len() {
        assert(t.drop_last() =~= s);
    } else {
        assert(t.drop_last() =~= s.drop_last().insert(i, x));
        assert(t.last() == s.last());
        lemma_insert(s.drop_last(), i, x, p);
    }
}

/// The order of the entries changes nothing.
pub proof fn lemma_any_order<T>(s: Seq<T>, t: Seq<T>, p: spec_fn(T) -> bool)
    requires
        s.to_multiset() == t.to_multiset(),
    ensures
        tally(s, p) == tally(t, p),
    decreases s.len(),
{
    broadcast use vstd::seq_lib::group_to_multiset_ensures;

    assert(s.len() == s.to_multiset().len());
    assert(t.len() == t.to_multiset().len());
    if s.len() > 0 {
        let l = s.len() - 1;
        let e = s[l];
        assert(s.contains(e));
        assert(s.to_multiset().count(e) > 0);
        assert(t.contains(e));
        let k = choose|k: int| 0 <= k < t.len() && t[k] == e;
        assert(s.drop_last() =~= s.remove(l));
        assert(s.remove(l).to_multiset() == s.to_multiset().remove(e));
        assert(t.remove(k).to_multiset() == t.to_multiset().remove(e));
        lemma_any_order(s.drop_last(), t.remove(k), p);
        assert(t.remove(k).insert(k, e) =~= t);
        lemma_insert(t.remove(k), k, e, p);
    }
}

/// Where only entries before a place can have the property, no more have it than stand there; where only
/// entries from a place on can have it, no more than stand from there on.
pub proof fn lemma_ends<T>(s: Seq<T>, p: spec_fn(T) -> bool, k: int)
    requires
        0 <= k <= s.len(),
    ensures
        (forall|i: int| k <= i < s.len() ==> !p(#[trigger] s[i])) ==> tally(s, p) <= k,
        (forall|i: int| 0 <= i < k ==> !p(#[trigger] s[i])) ==> tally(s, p) <= s.len() - k,
    decreases s.len(),
{
    if s.len() > 0 {
        let t = s.drop_last();
        assert(s.last() == s[s.len() - 1]);
        let at = if k <= t.len() {
            k
        } else {
            t.len() as int
        };
        lemma_ends(t, p, at);
        if forall|i: int| k <= i < s.len() ==> !p(#[trigger] s[i]) {
            assert forall|i: int| at <= i < t.len() implies !p(#[trigger] t[i]) by {
                assert(!p(s[i]));
            }
        }
        if forall|i: int| 0 <= i < k ==> !p(#[trigger] s[i]) {
            assert forall|i: int| 0 <= i < at implies !p(#[trigger] t[i]) by {
                assert(!p(s[i]));
            }
        }
    }
}

/// The number stands at a percentile: of the others, the share that is less is no more than the
/// percentile says, and the share that is greater no more than it leaves, but for half a place.
pub open spec fn at_percentile(less: nat, greater: nat, len: nat, pct: int) -> bool {
    &&& 100 * less <= (len - 1) * pct + 50
    &&& 100 * greater <= (len - 1) * (100 - pct) + 50
}

/// The place that a percentile is rounded to.
pub proof fn lemma_percentile_place(less: nat, greater: nat, len: nat, pct: int, place: int)
    requires
        0 < len,
        0 <= pct <= 100,
        place == ((len - 1) * pct + 50) / 100,
        less <= place,
        greater <= len - 1 - place,
    ensures
        at_percentile(less, greater, len, pct),
{
    let a = (len - 1) * pct;
    assert((len - 1) * (100 - pct) == 100 * (len - 1) - a) by (nonlinear_arith)
        requires
            a == (len - 1) * pct,
    ;
    assert(100 * place <= a + 50 < 100 * place + 100);
}

/// The place is one of the list.
pub proof fn lemma_place_in_list(len: nat, pct: int, place: int)
    requires
        0 < len,
        0 <= pct <= 100,
        place == ((len - 1) * pct + 50) / 100,
    ensures
        0 <= place < len,
{
    let a = (len - 1) * pct;
    assert(0 <= a <= 100 * (len - 1)) by (nonlinear_arith)
        requires
            a == (len - 1) * pct,
            0 <= pct <= 100,
            len >= 1,
    ;
}

} // verus!
