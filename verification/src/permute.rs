//! Permutations of positions: the order that sorts a list of keys, the inverse
//! of a permutation, and applying a permutation in place by following its cycles.
use vstd::prelude::*;
use vstd::seq_lib::group_to_multiset_ensures;
use vstd::seq_lib::lemma_multiset_commutative;

verus! {

/// `p` lists every position below `n` exactly once.
pub open spec fn is_permutation(p: Seq<usize>, n: nat) -> bool {
    &&& p.len() == n
    &&& forall|k: int| 0 <= k < n ==> #[trigger] p[k] < n
    &&& forall|k: int, l: int| 0 <= k < n && 0 <= l < n && k != l ==> p[k] != p[l]
    &&& forall|x: usize| x < n ==> #[trigger] p.contains(x)
}

/// The positions listed by `s` have non-decreasing keys.
pub open spec fn sorted_by_key(s: Seq<usize>, keys: Seq<u128>) -> bool {
    forall|i: int, j: int| 0 <= i < j < s.len() ==> keys[s[i] as int] <= keys[s[j] as int]
}

/// Every entry of `s` is below `n`.
pub open spec fn all_below(s: Seq<usize>, n: nat) -> bool {
    forall|i: int| 0 <= i < s.len() ==> #[trigger] s[i] < n
}

/// The positions `0 .. n` in order.
pub open spec fn identity(n: nat) -> Seq<usize> {
    Seq::new(n, |k: int| k as usize)
}

/// Copies positions `lo .. hi` of `v`.
fn copy_range(v: &Vec<usize>, lo: usize, hi: usize) -> (r: Vec<usize>)
    requires
        lo <= hi <= v@.len(),
    ensures
        r@ == v@.subrange(lo as int, hi as int),
{
    let mut r: Vec<usize> = Vec::new();
    let mut k = lo;
    while k < hi
        invariant
            lo <= k <= hi,
            hi <= v@.len(),
            r@ == v@.subrange(lo as int, k as int),
        decreases hi - k,
    {
        r.push(v[k]);
        k = k + 1;
        assert(r@ =~= v@.subrange(lo as int, k as int));
    }
    r
}

/// Merges two key-sorted lists of positions into one.
fn merge(a: &Vec<usize>, b: &Vec<usize>, keys: &Vec<u128>) -> (r: Vec<usize>)
    requires
        all_below(a@, keys@.len()),
        all_below(b@, keys@.len()),
        sorted_by_key(a@, keys@),
        sorted_by_key(b@, keys@),
    ensures
        sorted_by_key(r@, keys@),
        all_below(r@, keys@.len()),
        r@.to_multiset() =~= a@.to_multiset().add(b@.to_multiset()),
{
    broadcast use group_to_multiset_ensures;
    broadcast use vstd::multiset::group_multiset_axioms;

    let mut r: Vec<usize> = Vec::new();
    let mut i: usize = 0;
    let mut j: usize = 0;
    let alen = a.len();
    let blen = b.len();
    while i < alen || j < blen
        invariant
            alen == a@.len(),
            blen == b@.len(),
            0 <= i <= alen,
            0 <= j <= blen,
            all_below(a@, keys@.len()),
            all_below(b@, keys@.len()),
            sorted_by_key(a@, keys@),
            sorted_by_key(b@, keys@),
            sorted_by_key(r@, keys@),
            all_below(r@, keys@.len()),
            r@.len() == i + j,
            r@.len() > 0 && i < alen ==> keys@[r@.last() as int] <= keys@[a@[i as int] as int],
            r@.len() > 0 && j < blen ==> keys@[r@.last() as int] <= keys@[b@[j as int] as int],
            r@.to_multiset() =~= a@.take(i as int).to_multiset().add(
                b@.take(j as int).to_multiset(),
            ),
        decreases alen + blen - i - j,
    {
        let ghost before = r@;
        if j >= blen || (i < alen && keys[a[i]] <= keys[b[j]]) {
            let x = a[i];
            r.push(x);
            assert(a@.take(i + 1) =~= a@.take(i as int).push(x));
            assert(r@ =~= before.push(x));
            proof {
                before.to_multiset_ensures();
                a@.take(i as int).to_multiset_ensures();
            }
            assert(before.push(x).to_multiset() =~= before.to_multiset().insert(x));
            assert(a@.take(i as int).push(x).to_multiset() =~= a@.take(i as int).to_multiset().insert(x));
            i = i + 1;
        } else {
            let x = b[j];
            r.push(x);
            assert(b@.take(j + 1) =~= b@.take(j as int).push(x));
            assert(r@ =~= before.push(x));
            proof {
                before.to_multiset_ensures();
                b@.take(j as int).to_multiset_ensures();
            }
            assert(before.push(x).to_multiset() =~= before.to_multiset().insert(x));
            assert(b@.take(j as int).push(x).to_multiset() =~= b@.take(j as int).to_multiset().insert(x));
            j = j + 1;
        }
        assert(r@.drop_last() =~= before);
        assert forall|p: int, q: int| 0 <= p < q < r@.len() implies keys@[r@[p] as int]
            <= keys@[r@[q] as int] by {
            if q < r@.len() - 1 {
                assert(r@[p] == before[p] && r@[q] == before[q]);
            } else if p < r@.len() - 1 {
                assert(r@[p] == before[p]);
                assert(keys@[before[p] as int] <= keys@[before.last() as int]);
            }
        }
    }
    assert(a@.take(alen as int) =~= a@);
    assert(b@.take(blen as int) =~= b@);
    r
}

/// Sorts a list of positions by key (merge sort).
fn merge_sort(v: &Vec<usize>, keys: &Vec<u128>) -> (r: Vec<usize>)
    requires
        all_below(v@, keys@.len()),
    ensures
        sorted_by_key(r@, keys@),
        all_below(r@, keys@.len()),
        r@.to_multiset() =~= v@.to_multiset(),
    decreases v@.len(),
{
    let n = v.len();
    if n <= 1 {
        let r = copy_range(v, 0, n);
        assert(r@ =~= v@);
        return r;
    }
    let mid = n / 2;
    let left = copy_range(v, 0, mid);
    let right = copy_range(v, mid, n);
    assert(v@ =~= left@ + right@);
    proof {
        lemma_multiset_commutative(left@, right@);
    }
    let sl = merge_sort(&left, keys);
    let sr = merge_sort(&right, keys);
    merge(&sl, &sr, keys)
}

/// The order that sorts `keys`: a permutation of the positions of `keys` along
/// which the keys do not decrease.
pub fn sorted_order(keys: &Vec<u128>) -> (r: Vec<usize>)
    ensures
        is_permutation(r@, keys@.len()),
        sorted_by_key(r@, keys@),
{
    broadcast use group_to_multiset_ensures;

    let n = keys.len();
    let mut ids: Vec<usize> = Vec::new();
    let mut k: usize = 0;
    while k < n
        invariant
            0 <= k <= n,
            n == keys@.len(),
            ids@ =~= identity(k as nat),
        decreases n - k,
    {
        ids.push(k);
        k = k + 1;
    }
    let r = merge_sort(&ids, keys);
    proof {
        let id = identity(n as nat);
        assert(id.no_duplicates());
        id.lemma_multiset_has_no_duplicates();
        assert forall|x: usize| r@.to_multiset().contains(x) implies r@.to_multiset().count(x)
            == 1 by {
            assert(id.to_multiset().contains(x));
        }
        r@.lemma_multiset_has_no_duplicates_conv();
        assert(r@.len() == n) by {
            assert(r@.to_multiset().len() == id.to_multiset().len());
        }
        assert forall|x: usize| x < n implies #[trigger] r@.contains(x) by {
            assert(id[x as int] == x);
            assert(id.contains(x));
            assert(r@.to_multiset().count(x) > 0);
            assert(r@.contains(x));
        }
    }
    r
}

/// The inverse of a permutation: `r[p[k]] == k` for every position `k`.
pub fn inverse_permutation(p: &Vec<usize>) -> (r: Vec<usize>)
    requires
        is_permutation(p@, p@.len()),
    ensures
        is_permutation(r@, p@.len()),
        forall|k: int| 0 <= k < p@.len() ==> #[trigger] r@[p@[k] as int] == k,
        forall|x: int| 0 <= x < p@.len() ==> #[trigger] p@[r@[x] as int] == x,
{
    let n = p.len();
    let mut r: Vec<usize> = Vec::new();
    let mut k: usize = 0;
    while k < n
        invariant
            0 <= k <= n,
            r@.len() == k,
            forall|j: int| 0 <= j < k ==> #[trigger] r@[j] == 0,
        decreases n - k,
    {
        r.push(0);
        k = k + 1;
    }
    let mut k: usize = 0;
    while k < n
        invariant
            0 <= k <= n,
            n == p@.len(),
            r@.len() == n,
            is_permutation(p@, n as nat),
            forall|j: int| 0 <= j < k ==> #[trigger] r@[p@[j] as int] == j,
        decreases n - k,
    {
        let target = p[k];
        let ghost before = r@;
        r.set(target, k);
        assert forall|j: int| 0 <= j < k + 1 implies #[trigger] r@[p@[j] as int] == j by {
            if j < k {
                assert(p@[j] != p@[k as int]);
                assert(before[p@[j] as int] == j);
            }
        }
        k = k + 1;
    }
    assert forall|x: int| 0 <= x < n implies #[trigger] r@[x] < n && p@[r@[x] as int] == x by {
        assert(p@.contains(x as usize));
        let w = choose|j: int| 0 <= j < p@.len() && #[trigger] p@[j] == x as usize;
        assert(r@[p@[w] as int] == w);
    }
    assert forall|x: int| 0 <= x < n implies #[trigger] p@[r@[x] as int] == x by {
        assert(r@[x] < n);
    }
    assert forall|a: int, b: int| 0 <= a < n && 0 <= b < n && a != b implies r@[a] != r@[b] by {
        assert(p@[r@[a] as int] == a);
        assert(p@[r@[b] as int] == b);
    }
    assert forall|x: usize| x < n implies #[trigger] r@.contains(x) by {
        assert(r@[p@[x as int] as int] == x);
    }
    r
}

/// The number of marked (`usize::MAX`) entries.
spec fn count_marked(s: Seq<usize>) -> nat
    decreases s.len(),
{
    if s.len() == 0 {
        0
    } else {
        count_marked(s.drop_last()) + if s.last() == usize::MAX {
            1nat
        } else {
            0nat
        }
    }
}

proof fn lemma_count_marked_bound(s: Seq<usize>)
    ensures
        count_marked(s) <= s.len(),
    decreases s.len(),
{
    if s.len() > 0 {
        lemma_count_marked_bound(s.drop_last());
    }
}

proof fn lemma_count_marked_mark(s: Seq<usize>, c: int)
    requires
        0 <= c < s.len(),
        s[c] != usize::MAX,
    ensures
        count_marked(s.update(c, usize::MAX)) == count_marked(s) + 1,
    decreases s.len(),
{
    if c == s.len() - 1 {
        assert(s.update(c, usize::MAX).drop_last() =~= s.drop_last());
    } else {
        assert(s.update(c, usize::MAX).drop_last() =~= s.drop_last().update(c, usize::MAX));
        lemma_count_marked_mark(s.drop_last(), c);
    }
}

/// Rearranges `items` so that position `k` receives the element that was at
/// `order[k]`, walking each cycle of the permutation once.
pub fn apply_permutation<T: Copy>(items: &mut Vec<T>, order: Vec<usize>)
    requires
        is_permutation(order@, old(items)@.len()),
        old(items)@.len() < usize::MAX,
    ensures
        final(items)@.len() == old(items)@.len(),
        forall|k: int|
            0 <= k < old(items)@.len() ==> #[trigger] final(items)@[k] == old(items)@[order@[k] as int],
{
    let ghost p = order@;
    let ghost items0 = items@;
    let mut indices = order;
    let n = items.len();
    let mut i: usize = 0;
    while i < n
        invariant
            n == items0.len(),
            n < usize::MAX,
            items@.len() == n,
            indices@.len() == n,
            is_permutation(p, n as nat),
            0 <= i <= n,
            forall|j: int| 0 <= j < n ==> #[trigger] indices@[j] == usize::MAX || indices@[j] == p[j],
            forall|j: int| 0 <= j < i ==> #[trigger] indices@[j] == usize::MAX,
            forall|j: int|
                0 <= j < n && #[trigger] indices@[j] == usize::MAX ==> items@[j] == items0[p[j] as int],
            forall|j: int|
                0 <= j < n && #[trigger] indices@[j] != usize::MAX ==> items@[j] == items0[j],
            forall|j: int|
                0 <= j < n && indices@[#[trigger] p[j] as int] == usize::MAX ==> indices@[j]
                    == usize::MAX,
        decreases n - i,
    {
        let start = indices[i];
        if start == usize::MAX {
            i = i + 1;
        } else if start == i {
            indices.set(i, usize::MAX);
            assert forall|j: int|
                0 <= j < n && indices@[#[trigger] p[j] as int] == usize::MAX implies indices@[j]
                == usize::MAX by {
                if p[j] == i {
                    assert(p[i as int] == i);
                }
            }
            i = i + 1;
        } else {
            let mut current = i;
            let mut walking = true;
            while walking
                invariant
                    n == items0.len(),
                    n < usize::MAX,
                    items@.len() == n,
                    indices@.len() == n,
                    is_permutation(p, n as nat),
                    0 <= i < n,
                    p[i as int] != i,
                    forall|j: int|
                        0 <= j < n ==> #[trigger] indices@[j] == usize::MAX || indices@[j] == p[j],
                    forall|j: int| 0 <= j < i ==> #[trigger] indices@[j] == usize::MAX,
                    forall|j: int|
                        0 <= j < n && #[trigger] indices@[j] == usize::MAX ==> items@[j]
                            == items0[p[j] as int],
                    forall|j: int|
                        0 <= j < n && #[trigger] indices@[j] != usize::MAX && (!walking || j
                            != current) ==> items@[j] == items0[j],
                    walking ==> current < n && indices@[current as int] != usize::MAX
                        && items@[current as int] == items0[i as int] && ((current == i) == (
                    indices@[i as int] != usize::MAX)),
                    walking ==> forall|j: int|
                        0 <= j < n && (indices@[#[trigger] p[j] as int] == usize::MAX || p[j]
                            == current) && p[j] != i ==> indices@[j] == usize::MAX,
                    !walking ==> indices@[i as int] == usize::MAX,
                    !walking ==> forall|j: int|
                        0 <= j < n && indices@[#[trigger] p[j] as int] == usize::MAX
                            ==> indices@[j] == usize::MAX,
                decreases n - count_marked(indices@), if walking {
                    1int
                } else {
                    0int
                },
            {
                let target = indices[current];
                let ghost before = indices@;
                proof {
                    lemma_count_marked_mark(indices@, current as int);
                    lemma_count_marked_bound(indices@.update(current as int, usize::MAX));
                }
                indices.set(current, usize::MAX);
                if target == i {
                    walking = false;
                    assert forall|j: int|
                        0 <= j < n && indices@[#[trigger] p[j] as int] == usize::MAX
                            implies indices@[j] == usize::MAX by {
                        if p[j] == i {
                            assert(p[current as int] == i);
                        } else if p[j] == current {
                        } else {
                            assert(before[p[j] as int] == usize::MAX);
                        }
                    }
                } else {
                    assert(target < n);
                    assert(before[target as int] != usize::MAX) by {
                        if before[target as int] == usize::MAX {
                            assert(before[p[current as int] as int] == usize::MAX);
                        }
                    }
                    assert(target != current) by {
                        if target == current {
                            assert(p[current as int] == current);
                        }
                    }
                    let a = items[current];
                    let b = items[target];
                    items.set(current, b);
                    items.set(target, a);
                    let ghost old_current = current;
                    current = target;
                    assert forall|j: int|
                        0 <= j < n && (indices@[#[trigger] p[j] as int] == usize::MAX || p[j]
                            == current) && p[j] != i implies indices@[j] == usize::MAX by {
                        if p[j] == current {
                            assert(p[old_current as int] == current);
                        } else if p[j] == old_current {
                        } else {
                            assert(before[p[j] as int] == usize::MAX);
                        }
                    }
                }
            }
            i = i + 1;
        }
    }
}

} // verus!
