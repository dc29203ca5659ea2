//! Stable sorting by an integer key.
use vstd::prelude::*;

verus! {

/// Position `a` comes before position `b` in a stable sort by `keys`.
pub open spec fn goes_before(keys: Seq<i128>, a: int, b: int) -> bool {
    keys[a] < keys[b] || keys[a] == keys[b] && a < b
}

/// `order` lists the positions of `keys` as a stable sort puts them: by key, and equal keys by
/// position.
pub open spec fn is_stable_order(keys: Seq<i128>, order: Seq<usize>) -> bool {
    &&& order.len() == keys.len()
    &&& forall|i: int| 0 <= i < order.len() ==> (#[trigger] order[i]) < keys.len()
    &&& forall|i: int, j: int|
        #![trigger order[i], order[j]]
        0 <= i < j < order.len() ==> goes_before(keys, order[i] as int, order[j] as int)
}

/// The positions of `keys` as a stable sort puts them.
pub open spec fn the_order(keys: Seq<i128>) -> Seq<usize> {
    choose|order: Seq<usize>| is_stable_order(keys, order)
}

/// The positions `lo..hi`, each once, as a stable sort puts them.
spec fn sorted_part(keys: Seq<i128>, lo: int, hi: int, order: Seq<usize>) -> bool {
    &&& order.len() == hi - lo
    &&& forall|i: int| 0 <= i < order.len() ==> lo <= (#[trigger] order[i]) < hi
    &&& forall|i: int, j: int|
        #![trigger order[i], order[j]]
        0 <= i < j < order.len() ==> goes_before(keys, order[i] as int, order[j] as int)
}

/// The stable order of `keys`.
pub fn stable_order(keys: &[i128]) -> (order: Vec<usize>)
    ensures
        is_stable_order(keys@, order@),
        order@ == the_order(keys@),
{
    let order = sort_part(keys, 0, keys.len());
    proof {
        assert(is_stable_order(keys@, order@));
        lemma_stable_order_unique(keys@, order@, the_order(keys@));
    }
    order
}

fn sort_part(keys: &[i128], lo: usize, hi: usize) -> (order: Vec<usize>)
    requires
        lo <= hi <= keys@.len(),
    ensures
        sorted_part(keys@, lo as int, hi as int, order@),
    decreases hi - lo,
{
    if hi - lo <= 1 {
        let mut order: Vec<usize> = Vec::new();
        if lo < hi {
            order.push(lo);
        }
        return order;
    }
    let mid: usize = lo + (hi - lo) / 2;
    let left = sort_part(keys, lo, mid);
    let right = sort_part(keys, mid, hi);
    merge(keys, lo, mid, hi, left, right)
}

fn merge(
    keys: &[i128],
    lo: usize,
    mid: usize,
    hi: usize,
    left: Vec<usize>,
    right: Vec<usize>,
) -> (order: Vec<usize>)
    requires
        lo <= mid <= hi <= keys@.len(),
        sorted_part(keys@, lo as int, mid as int, left@),
        sorted_part(keys@, mid as int, hi as int, right@),
    ensures
        sorted_part(keys@, lo as int, hi as int, order@),
{
    let mut order: Vec<usize> = Vec::with_capacity(hi - lo);
    let mut i: usize = 0;
    let mut j: usize = 0;
    while i < left.len() || j < right.len()
        invariant
            lo <= mid <= hi <= keys@.len(),
            sorted_part(keys@, lo as int, mid as int, left@),
            sorted_part(keys@, mid as int, hi as int, right@),
            i <= left@.len(),
            j <= right@.len(),
            order@.len() == i + j,
            forall|a: int| 0 <= a < order@.len() ==> lo <= (#[trigger] order@[a]) < hi,
            forall|a: int, b: int|
                #![trigger order@[a], order@[b]]
                0 <= a < b < order@.len() ==> goes_before(keys@, order@[a] as int, order@[b] as int),
            forall|a: int, b: int|
                #![trigger order@[a], left@[b]]
                0 <= a < order@.len() && i <= b < left@.len() ==> goes_before(
                    keys@,
                    order@[a] as int,
                    left@[b] as int,
                ),
            forall|a: int, b: int|
                #![trigger order@[a], right@[b]]
                0 <= a < order@.len() && j <= b < right@.len() ==> goes_before(
                    keys@,
                    order@[a] as int,
                    right@[b] as int,
                ),
        decreases left@.len() - i + right@.len() - j,
    {
        let take_left: bool = if i < left.len() && j < right.len() {
            keys[left[i]] <= keys[right[j]]
        } else {
            i < left.len()
        };
        if take_left {
            assert(forall|b: int|
                j <= b < right@.len() ==> goes_before(
                    keys@,
                    left@[i as int] as int,
                    #[trigger] right@[b] as int,
                )) by {
                if j < right@.len() {
                    assert(goes_before(keys@, left@[i as int] as int, right@[j as int] as int));
                    assert(forall|b: int|
                        j < b < right@.len() ==> goes_before(
                            keys@,
                            right@[j as int] as int,
                            #[trigger] right@[b] as int,
                        ));
                }
            }
            order.push(left[i]);
            i += 1;
        } else {
            assert(forall|b: int|
                i <= b < left@.len() ==> goes_before(
                    keys@,
                    right@[j as int] as int,
                    #[trigger] left@[b] as int,
                )) by {
                if i < left@.len() {
                    assert(goes_before(keys@, right@[j as int] as int, left@[i as int] as int));
                    assert(forall|b: int|
                        i < b < left@.len() ==> goes_before(
                            keys@,
                            left@[i as int] as int,
                            #[trigger] left@[b] as int,
                        ));
                }
            }
            order.push(right[j]);
            j += 1;
        }
    }
    order
}

/// `order` lists the positions `0..n`, each once.
pub open spec fn is_permutation(order: Seq<usize>, n: nat) -> bool {
    &&& order.len() == n
    &&& order.no_duplicates()
    &&& forall|i: int| 0 <= i < n ==> (#[trigger] order[i]) < n
}

/// What stands at the listed positions.
pub open spec fn gathered<T>(s: Seq<T>, order: Seq<usize>) -> Seq<T> {
    Seq::new(order.len(), |i: int| s[order[i] as int])
}

/// A stable order lists every position once.
pub proof fn lemma_stable_order_is_permutation(keys: Seq<i128>, order: Seq<usize>)
    requires
        is_stable_order(keys, order),
    ensures
        is_permutation(order, keys.len()),
{
    assert forall|i: int, j: int| 0 <= i < order.len() && 0 <= j < order.len() && i != j implies order[i]
        != order[j] by {
        if i < j {
            assert(goes_before(keys, order[i] as int, order[j] as int));
        } else {
            assert(goes_before(keys, order[j] as int, order[i] as int));
        }
    }
}

/// A permutation of `0..n` lists every position below `n`.
pub proof fn lemma_permutation_is_onto(order: Seq<usize>, n: nat, p: usize)
    requires
        is_permutation(order, n),
        p < n,
    ensures
        order.contains(p),
{
    if !order.contains(p) {
        // `n` distinct positions other than `p` cannot all be below `n`.
        let s = order.push(p).map_values(|x: usize| x as int);
        assert(s.no_duplicates());
        assert forall|x: int| #[trigger] s.to_set().contains(x) implies vstd::set_lib::set_int_range(
            0,
            n as int,
        ).contains(x) by {
            let i = choose|i: int| 0 <= i < s.len() && s[i] == x;
            if i < order.len() {
                assert(order[i] < n);
            }
        }
        s.unique_seq_to_set();
        vstd::set_lib::lemma_int_range(0, n as int);
        vstd::set_lib::lemma_len_subset(s.to_set(), vstd::set_lib::set_int_range(0, n as int));
    }
}

/// To list the items of a sequence in another order leaves the items the same.
pub proof fn lemma_gathered_multiset<T>(s: Seq<T>, order: Seq<usize>)
    requires
        is_permutation(order, s.len()),
    ensures
        gathered(s, order).to_multiset() == s.to_multiset(),
    decreases s.len(),
{
    broadcast use vstd::seq_lib::group_to_multiset_ensures;

    if s.len() == 0 {
        assert(gathered(s, order) =~= s);
    } else {
        let last = (s.len() - 1) as usize;
        assert(last == s.len() - 1) by {
            assert(order[0] < s.len());
            assert(s.len() - 1 <= usize::MAX) by {
                lemma_permutation_fits(order, s.len());
            }
        }
        lemma_permutation_is_onto(order, s.len(), last);
        let j = choose|j: int| 0 <= j < order.len() && order[j] == last;
        let short = order.remove(j);
        assert(is_permutation(short, (s.len() - 1) as nat)) by {
            assert forall|i: int| 0 <= i < short.len() implies (#[trigger] short[i]) < s.len() - 1 by {
                let k = if i < j {
                    i
                } else {
                    i + 1
                };
                assert(short[i] == order[k]);
                assert(order[k] != order[j]);
            }
        }
        lemma_gathered_multiset(s.drop_last(), short);
        let g = gathered(s, order);
        assert(g.remove(j) =~= gathered(s.drop_last(), short));
        assert(g[j] == s.last());
        assert(s.drop_last().push(s.last()) =~= s);
        assert(g.remove(j).insert(j, g[j]) =~= g);
        assert(g.to_multiset() =~= s.to_multiset());
    }
}

/// Positions that are all listed are few enough to be counted.
proof fn lemma_permutation_fits(order: Seq<usize>, n: nat)
    requires
        is_permutation(order, n),
    ensures
        n <= usize::MAX + 1,
{
    if n > usize::MAX + 1 {
        let s = order.map_values(|x: usize| x as int);
        assert(s.no_duplicates());
        assert forall|x: int| #[trigger] s.to_set().contains(x) implies vstd::set_lib::set_int_range(
            0,
            usize::MAX + 1,
        ).contains(x) by {
            let i = choose|i: int| 0 <= i < s.len() && s[i] == x;
            assert(order[i] <= usize::MAX);
        }
        s.unique_seq_to_set();
        vstd::set_lib::lemma_int_range(0, usize::MAX + 1);
        vstd::set_lib::lemma_len_subset(
            s.to_set(),
            vstd::set_lib::set_int_range(0, usize::MAX + 1),
        );
    }
}

/// A list of sizes in ascending order.
pub fn sort_usizes(list: &Vec<usize>) -> (sorted: Vec<usize>)
    ensures
        sorted@.len() == list@.len(),
        sorted@.map_values(|d: usize| d as int) == list@.map_values(|d: usize| d as int).sort_by(
            |a: int, b: int| a <= b,
        ),
{
    let mut keys: Vec<i128> = Vec::with_capacity(list.len());
    let mut i: usize = 0;
    while i < list.len()
        invariant
            i <= list@.len(),
            keys@.len() == i,
            forall|j: int| 0 <= j < i ==> keys@[j] == list@[j],
        decreases list@.len() - i,
    {
        keys.push(list[i] as i128);
        i += 1;
    }
    let order = stable_order(keys.as_slice());
    let mut sorted: Vec<usize> = Vec::with_capacity(list.len());
    let mut k: usize = 0;
    while k < order.len()
        invariant
            k <= order@.len(),
            is_stable_order(keys@, order@),
            keys@.len() == list@.len(),
            sorted@ == gathered(list@, order@).take(k as int),
        decreases order@.len() - k,
    {
        sorted.push(list[order[k]]);
        k += 1;
        assert(sorted@ =~= gathered(list@, order@).take(k as int));
    }
    proof {
        assert(sorted@ =~= gathered(list@, order@));
        let ints = list@.map_values(|d: usize| d as int);
        let out = sorted@.map_values(|d: usize| d as int);
        let leq = |a: int, b: int| a <= b;
        lemma_stable_order_is_permutation(keys@, order@);
        lemma_gathered_multiset(ints, order@);
        assert(out =~= gathered(ints, order@));
        ints.lemma_sort_by_ensures(leq);
        assert(vstd::relations::sorted_by(out, leq)) by {
            assert forall|i: int, j: int| 0 <= i < j < out.len() implies #[trigger] leq(
                out[i],
                out[j],
            ) by {
                assert(goes_before(keys@, order@[i] as int, order@[j] as int));
            }
        }
        vstd::seq_lib::lemma_sorted_unique(out, ints.sort_by(leq), leq);
    }
    sorted
}

/// Keys have one stable order.
pub proof fn lemma_stable_order_unique(keys: Seq<i128>, a: Seq<usize>, b: Seq<usize>)
    requires
        is_stable_order(keys, a),
        is_stable_order(keys, b),
    ensures
        a == b,
{
    assert forall|i: int| 0 <= i < a.len() implies a[i] == b[i] by {
        lemma_same_prefix(keys, a, b, i + 1);
        assert(a.take(i + 1)[i] == b.take(i + 1)[i]);
    }
    assert(a =~= b);
}

/// A stable order lists every position.
pub proof fn lemma_stable_order_is_onto(keys: Seq<i128>, order: Seq<usize>, p: usize)
    requires
        is_stable_order(keys, order),
        p < keys.len(),
    ensures
        order.contains(p),
{
    lemma_stable_order_is_permutation(keys, order);
    lemma_permutation_is_onto(order, keys.len(), p);
}

proof fn lemma_same_prefix(keys: Seq<i128>, a: Seq<usize>, b: Seq<usize>, k: int)
    requires
        is_stable_order(keys, a),
        is_stable_order(keys, b),
        0 <= k <= a.len(),
    ensures
        a.take(k) == b.take(k),
    decreases k,
{
    if k > 0 {
        let i = k - 1;
        lemma_same_prefix(keys, a, b, i);
        assert(forall|j: int| 0 <= j < i ==> a[j] == b[j]) by {
            assert forall|j: int| 0 <= j < i implies a[j] == b[j] by {
                assert(a.take(i)[j] == b.take(i)[j]);
            }
        }
        lemma_stable_order_is_onto(keys, a, b[i]);
        lemma_stable_order_is_onto(keys, b, a[i]);
        let ja = choose|j: int| 0 <= j < a.len() && a[j] == b[i];
        let jb = choose|j: int| 0 <= j < b.len() && b[j] == a[i];
        if a[i] != b[i] {
            if ja < i {
                assert(b[ja] == b[i]);
                assert(goes_before(keys, b[ja] as int, b[i] as int));
            } else if jb < i {
                assert(a[jb] == a[i]);
                assert(goes_before(keys, a[jb] as int, a[i] as int));
            } else {
                assert(goes_before(keys, a[i] as int, a[ja] as int));
                assert(goes_before(keys, b[i] as int, b[jb] as int));
            }
        }
        assert(a.take(k) =~= b.take(k));
    }
}

/// How many of the first `i` positions of an order come no later than a key.
spec fn not_after(keys: Seq<i128>, order: Seq<usize>, key: i128, i: int) -> int
    decreases i,
{
    if i <= 0 {
        0
    } else if keys[order[i - 1] as int] <= key {
        i
    } else {
        not_after(keys, order, key, i - 1)
    }
}

proof fn lemma_not_after(keys: Seq<i128>, order: Seq<usize>, key: i128, i: int)
    requires
        is_stable_order(keys, order),
        0 <= i <= order.len(),
    ensures
        0 <= not_after(keys, order, key, i) <= i,
        forall|k: int|
            0 <= k < not_after(keys, order, key, i) ==> keys[(#[trigger] order[k]) as int] <= key,
        forall|k: int|
            not_after(keys, order, key, i) <= k < i ==> keys[(#[trigger] order[k]) as int] > key,
    decreases i,
{
    if i > 0 {
        if keys[order[i - 1] as int] <= key {
            assert forall|k: int| 0 <= k < i implies keys[(#[trigger] order[k]) as int]
                <= key by {
                if k < i - 1 {
                    assert(goes_before(keys, order[k] as int, order[i - 1] as int));
                }
            }
        } else {
            lemma_not_after(keys, order, key, i - 1);
        }
    }
}

/// Every list of keys has a stable order.
pub proof fn lemma_order_exists(keys: Seq<i128>)
    requires
        keys.len() <= usize::MAX,
    ensures
        is_stable_order(keys, the_order(keys)),
    decreases keys.len(),
{
    if keys.len() == 0 {
        assert(is_stable_order(keys, Seq::<usize>::empty()));
    } else {
        let short = keys.drop_last();
        let last = (keys.len() - 1) as usize;
        lemma_order_exists(short);
        let before = the_order(short);
        let at = not_after(short, before, keys.last(), before.len() as int);
        lemma_not_after(short, before, keys.last(), before.len() as int);
        let order = before.insert(at, last);
        assert forall|i: int| 0 <= i < order.len() implies (#[trigger] order[i]) < keys.len() by {
            if i < at {
                assert(order[i] == before[i]);
            } else if i > at {
                assert(order[i] == before[i - 1]);
            }
        }
        assert forall|i: int, j: int|
            #![trigger order[i], order[j]]
            0 <= i < j < order.len() implies goes_before(
            keys,
            order[i] as int,
            order[j] as int,
        ) by {
            let a = if i < at {
                i
            } else {
                i - 1
            };
            let b = if j < at {
                j
            } else {
                j - 1
            };
            if i != at && j != at {
                assert(order[i] == before[a] && order[j] == before[b]);
                assert(goes_before(short, before[a] as int, before[b] as int));
            } else if j == at {
                assert(order[i] == before[i]);
                assert(short[before[i] as int] <= keys.last());
            } else {
                assert(order[j] == before[b]);
                assert(short[before[b] as int] > keys.last());
            }
        }
        assert(is_stable_order(keys, order));
    }
}

} // verus!
