use vstd::prelude::*;

use vstd::seq_lib::group_to_multiset_ensures;
use vstd::seq_lib::lemma_multiset_commutative;

verus! {

/// Non-decreasing order.
pub open spec fn sorted(s: Seq<i32>) -> bool {
    forall|i: int, j: int| 0 <= i <= j < s.len() ==> #[trigger] s[i] <= #[trigger] s[j]
}

/// Exchanging two elements leaves the multiset of the sequence unchanged.
pub proof fn lemma_swap_multiset(s: Seq<i32>, a: int, b: int)
    requires
        0 <= a < s.len(),
        0 <= b < s.len(),
    ensures
        s.update(a, s[b]).update(b, s[a]).to_multiset() == s.to_multiset(),
{
    broadcast use group_to_multiset_ensures;
    broadcast use vstd::multiset::group_multiset_axioms;

    if a == b {
        assert(s.update(a, s[b]).update(b, s[a]) =~= s);
    } else {
        let s1 = s.update(a, s[b]);
        assert(s1[b] == s[b]);
        assert(s1.update(b, s[a]).to_multiset() =~= s.to_multiset());
    }
}

/// Exchanging two elements inside a window leaves the window's multiset,
/// and everything outside the window, unchanged.
pub proof fn lemma_swap_in_range(s: Seq<i32>, lo: int, hi: int, a: int, b: int)
    requires
        0 <= lo <= a < hi <= s.len(),
        lo <= b < hi,
    ensures
        s.update(a, s[b]).update(b, s[a]).subrange(lo, hi).to_multiset() == s.subrange(
            lo,
            hi,
        ).to_multiset(),
        s.update(a, s[b]).update(b, s[a]).subrange(0, lo) == s.subrange(0, lo),
        s.update(a, s[b]).update(b, s[a]).subrange(hi, s.len() as int) == s.subrange(
            hi,
            s.len() as int,
        ),
{
    let t = s.update(a, s[b]).update(b, s[a]);
    let w = s.subrange(lo, hi);
    assert(t.subrange(lo, hi) =~= w.update(a - lo, w[b - lo]).update(b - lo, w[a - lo]));
    lemma_swap_multiset(w, a - lo, b - lo);
    assert(t.subrange(0, lo) =~= s.subrange(0, lo));
    assert(t.subrange(hi, s.len() as int) =~= s.subrange(hi, s.len() as int));
}

/// Two sequences with one multiset hold the same values: a bound below a
/// pivot carries over.
proof fn lemma_multiset_keeps_lt(s1: Seq<i32>, s2: Seq<i32>, v: i32)
    requires
        s1.to_multiset() == s2.to_multiset(),
        forall|m: int| 0 <= m < s1.len() ==> #[trigger] s1[m] < v,
    ensures
        forall|m: int| 0 <= m < s2.len() ==> #[trigger] s2[m] < v,
{
    broadcast use group_to_multiset_ensures;

    assert forall|m: int| 0 <= m < s2.len() implies #[trigger] s2[m] < v by {
        assert(s2.contains(s2[m]));
        assert(s2.to_multiset().count(s2[m]) > 0);
        assert(s1.contains(s2[m]));
        let j = choose|j: int| 0 <= j < s1.len() && s1[j] == s2[m];
    }
}

/// The mirror of `lemma_multiset_keeps_lt` for a lower bound.
proof fn lemma_multiset_keeps_ge(s1: Seq<i32>, s2: Seq<i32>, v: i32)
    requires
        s1.to_multiset() == s2.to_multiset(),
        forall|m: int| 0 <= m < s1.len() ==> #[trigger] s1[m] >= v,
    ensures
        forall|m: int| 0 <= m < s2.len() ==> #[trigger] s2[m] >= v,
{
    broadcast use group_to_multiset_ensures;

    assert forall|m: int| 0 <= m < s2.len() implies #[trigger] s2[m] >= v by {
        assert(s2.contains(s2[m]));
        assert(s2.to_multiset().count(s2[m]) > 0);
        assert(s1.contains(s2[m]));
        let j = choose|j: int| 0 <= j < s1.len() && s1[j] == s2[m];
    }
}

/// Exchange the elements at `a` and `b`.
fn swap_items(x: &mut Vec<i32>, a: usize, b: usize)
    requires
        a < old(x).len(),
        b < old(x).len(),
    ensures
        final(x)@ == old(x)@.update(a as int, old(x)@[b as int]).update(
            b as int,
            old(x)@[a as int],
        ),
        final(x)@.to_multiset() == old(x)@.to_multiset(),
        final(x)@.len() == old(x)@.len(),
{
    let va: i32 = x[a];
    let vb: i32 = x[b];
    x.set(a, vb);
    x.set(b, va);
    proof {
        lemma_swap_multiset(old(x)@, a as int, b as int);
    }
}

/// Insertion sort: grow a sorted prefix by sliding each element left to
/// its place.
pub fn insertion_sort(x: Vec<i32>) -> (r: Vec<i32>)
    ensures
        sorted(r@),
        r@.to_multiset() == x@.to_multiset(),
{
    broadcast use group_to_multiset_ensures;
    broadcast use vstd::multiset::group_multiset_axioms;

    let mut x = x;
    let ghost orig = x@;
    let n: usize = x.len();
    if n <= 1 {
        return x;
    }
    let mut i: usize = 1;
    while i < n
        invariant
            1 <= i <= n,
            x@.len() == n == orig.len(),
            sorted(x@.take(i as int)),
            x@.to_multiset() == orig.to_multiset(),
        decreases n - i,
    {
        let ghost snap = x@;
        let curr: i32 = x[i];
        let mut j: usize = i;
        while j > 0 && curr < x[j - 1]
            invariant
                0 <= j <= i < n,
                x@.len() == n,
                snap.len() == n,
                curr == snap[i as int],
                sorted(snap.take(i as int)),
                forall|m: int| 0 <= m < j ==> #[trigger] x@[m] == snap[m],
                forall|m: int| j < m <= i ==> #[trigger] x@[m] == snap[m - 1],
                forall|m: int| i < m < n ==> #[trigger] x@[m] == snap[m],
                forall|m: int| j < m <= i ==> curr < #[trigger] x@[m],
            decreases j,
        {
            let t: i32 = x[j - 1];
            x.set(j, t);
            j = j - 1;
        }
        x.set(j, curr);
        proof {
            broadcast use group_to_multiset_ensures;
            broadcast use vstd::multiset::group_multiset_axioms;

            assert(x@ =~= snap.remove(i as int).insert(j as int, curr));
            assert(snap.contains(curr));
            assert(snap.remove(i as int).to_multiset() == snap.to_multiset().remove(curr));
            assert(snap.remove(i as int).insert(j as int, curr).to_multiset() == snap.remove(
                i as int,
            ).to_multiset().insert(curr));
            assert(x@.to_multiset() =~= snap.to_multiset());
            assert forall|p: int, q: int| 0 <= p <= q < i + 1 implies #[trigger] x@[p]
                <= #[trigger] x@[q] by {
                if p < j && q < j {
                    assert(snap.take(i as int)[p] == snap[p]);
                    assert(snap.take(i as int)[q] == snap[q]);
                } else if p < j && q == j {
                    assert(snap.take(i as int)[p] == snap[p]);
                    assert(snap.take(i as int)[j - 1] == snap[j - 1]);
                } else if p == j && q == j {
                } else {
                    if p < j {
                        assert(snap.take(i as int)[p] == snap[p]);
                        assert(snap.take(i as int)[q - 1] == snap[q - 1]);
                    } else if p == j {
                    } else {
                        assert(snap.take(i as int)[p - 1] == snap[p - 1]);
                        assert(snap.take(i as int)[q - 1] == snap[q - 1]);
                    }
                }
            };
        }
        i = i + 1;
    }
    proof {
        assert(x@.take(n as int) =~= x@);
    }
    x
}

/// Selection sort: repeatedly move the least remaining element to the
/// front.
pub fn selection_sort(x: &mut Vec<i32>)
    ensures
        sorted(final(x)@),
        final(x)@.to_multiset() == old(x)@.to_multiset(),
        final(x)@.len() == old(x)@.len(),
{
    let n: usize = x.len();
    let mut i: usize = 0;
    while i < n
        invariant
            i <= n,
            x@.len() == n == old(x)@.len(),
            x@.to_multiset() == old(x)@.to_multiset(),
            sorted(x@.take(i as int)),
            forall|p: int, q: int| 0 <= p < i <= q < n ==> #[trigger] x@[p] <= #[trigger] x@[q],
        decreases n - i,
    {
        let mut m: usize = i;
        let mut j: usize = i + 1;
        while j < n
            invariant
                i <= m < j <= n,
                i < n,
                x@.len() == n,
                forall|k: int| i <= k < j ==> x@[m as int] <= #[trigger] x@[k],
            decreases n - j,
        {
            if x[j] < x[m] {
                m = j;
            }
            j = j + 1;
        }
        let ghost before = x@;
        swap_items(x, i, m);
        proof {
            assert forall|p: int, q: int| 0 <= p <= q < i + 1 implies #[trigger] x@[p]
                <= #[trigger] x@[q] by {
                if q < i {
                    assert(before.take(i as int)[p] == before[p]);
                    assert(before.take(i as int)[q] == before[q]);
                } else if p < i {
                    assert(before.take(i as int)[p] == before[p]);
                }
            };
            assert(sorted(x@.take(i as int + 1)));
        }
        i = i + 1;
    }
    proof {
        assert(x@.take(n as int) =~= x@);
    }
}

/// Merge two sorted lists into one sorted list holding both multisets.
pub fn sort_list(list1: &Vec<i32>, list2: &Vec<i32>) -> (r: Vec<i32>)
    requires
        sorted(list1@),
        sorted(list2@),
    ensures
        sorted(r@),
        r@.to_multiset() == (list1@ + list2@).to_multiset(),
        r@.len() == list1@.len() + list2@.len(),
{
    broadcast use group_to_multiset_ensures;
    broadcast use vstd::multiset::group_multiset_axioms;
    broadcast use lemma_multiset_commutative;

    let mut r: Vec<i32> = Vec::new();
    let mut i: usize = 0;
    let mut j: usize = 0;
    while i < list1.len() || j < list2.len()
        invariant
            i <= list1@.len(),
            j <= list2@.len(),
            sorted(list1@),
            sorted(list2@),
            sorted(r@),
            r@.len() == i + j,
            r@.to_multiset() == (list1@.take(i as int) + list2@.take(j as int)).to_multiset(),
            forall|m: int|
                0 <= m < r@.len() && i < list1@.len() ==> #[trigger] r@[m] <= list1@[i as int],
            forall|m: int|
                0 <= m < r@.len() && j < list2@.len() ==> #[trigger] r@[m] <= list2@[j as int],
        decreases list1@.len() + list2@.len() - i - j,
    {
        let take_first: bool = if i < list1.len() && j < list2.len() {
            list1[i] <= list2[j]
        } else {
            i < list1.len()
        };
        let ghost aa = list1@.take(i as int);
        let ghost bb = list2@.take(j as int);
        if take_first {
            let v: i32 = list1[i];
            r.push(v);
            proof {
                broadcast use group_to_multiset_ensures;
                broadcast use vstd::multiset::group_multiset_axioms;
                broadcast use lemma_multiset_commutative;

                assert(list1@.take(i as int + 1) =~= aa.push(v));
                assert((aa.push(v) + bb).to_multiset() == aa.push(v).to_multiset().add(
                    bb.to_multiset(),
                ));
                assert(aa.push(v).to_multiset() == aa.to_multiset().insert(v));
                assert((aa + bb).to_multiset() == aa.to_multiset().add(bb.to_multiset()));
                assert(r@.to_multiset() =~= (list1@.take(i as int + 1) + bb).to_multiset());
            }
            i = i + 1;
        } else {
            let v: i32 = list2[j];
            r.push(v);
            proof {
                broadcast use group_to_multiset_ensures;
                broadcast use vstd::multiset::group_multiset_axioms;
                broadcast use lemma_multiset_commutative;

                assert(list2@.take(j as int + 1) =~= bb.push(v));
                assert((aa + bb.push(v)).to_multiset() == aa.to_multiset().add(
                    bb.push(v).to_multiset(),
                ));
                assert(bb.push(v).to_multiset() == bb.to_multiset().insert(v));
                assert((aa + bb).to_multiset() == aa.to_multiset().add(bb.to_multiset()));
                assert(r@.to_multiset() =~= (aa + list2@.take(j as int + 1)).to_multiset());
            }
            j = j + 1;
        }
    }
    proof {
        assert(list1@.take(list1@.len() as int) =~= list1@);
        assert(list2@.take(list2@.len() as int) =~= list2@);
    }
    r
}

/// Merge sort: split in half, sort both halves, merge.
pub fn merge_sort(x: &Vec<i32>) -> (r: Vec<i32>)
    ensures
        sorted(r@),
        r@.to_multiset() == x@.to_multiset(),
        r@.len() == x@.len(),
    decreases x@.len(),
{
    broadcast use group_to_multiset_ensures;
    broadcast use vstd::multiset::group_multiset_axioms;
    broadcast use lemma_multiset_commutative;

    let n: usize = x.len();
    if n <= 1 {
        let mut r: Vec<i32> = Vec::new();
        let mut k: usize = 0;
        while k < n
            invariant
                k <= n,
                n == x@.len(),
                r@ == x@.take(k as int),
            decreases n - k,
        {
            r.push(x[k]);
            proof {
                assert(x@.take(k as int + 1) =~= x@.take(k as int).push(x@[k as int]));
            }
            k = k + 1;
        }
        proof {
            assert(x@.take(n as int) =~= x@);
        }
        return r;
    }
    let half: usize = n / 2;
    let mut left: Vec<i32> = Vec::new();
    let mut k: usize = 0;
    while k < half
        invariant
            k <= half <= n == x@.len(),
            left@ == x@.take(k as int),
        decreases half - k,
    {
        left.push(x[k]);
        proof {
            assert(x@.take(k as int + 1) =~= x@.take(k as int).push(x@[k as int]));
        }
        k = k + 1;
    }
    let mut right: Vec<i32> = Vec::new();
    let mut m: usize = half;
    while m < n
        invariant
            half <= m <= n == x@.len(),
            right@ == x@.subrange(half as int, m as int),
        decreases n - m,
    {
        right.push(x[m]);
        proof {
            assert(x@.subrange(half as int, m as int + 1) =~= x@.subrange(
                half as int,
                m as int,
            ).push(x@[m as int]));
        }
        m = m + 1;
    }
    let sorted_left = merge_sort(&left);
    let sorted_right = merge_sort(&right);
    let r = sort_list(&sorted_left, &sorted_right);
    proof {
        assert(left@ + right@ =~= x@);
        assert((sorted_left@ + sorted_right@).to_multiset() == (left@ + right@).to_multiset());
    }
    r
}

/// Partition the window `[lo, hi)` around its last element: the returned
/// index holds the pivot, everything left of it is smaller, everything
/// right of it is at least as large.
pub fn partition(x: &mut Vec<i32>, lo: usize, hi: usize) -> (p: usize)
    requires
        lo < hi <= old(x).len(),
    ensures
        lo <= p < hi,
        final(x)@.len() == old(x)@.len(),
        final(x)@.subrange(lo as int, hi as int).to_multiset() == old(x)@.subrange(
            lo as int,
            hi as int,
        ).to_multiset(),
        final(x)@.subrange(0, lo as int) == old(x)@.subrange(0, lo as int),
        final(x)@.subrange(hi as int, old(x)@.len() as int) == old(x)@.subrange(
            hi as int,
            old(x)@.len() as int,
        ),
        final(x)@[p as int] == old(x)@[hi - 1],
        forall|m: int| lo <= m < p ==> #[trigger] final(x)@[m] < final(x)@[p as int],
        forall|m: int| p < m < hi ==> #[trigger] final(x)@[m] >= final(x)@[p as int],
{
    let pivot: i32 = x[hi - 1];
    let mut i: usize = lo;
    let mut j: usize = lo;
    while j < hi - 1
        invariant
            lo <= i <= j <= hi - 1 < hi <= x@.len(),
            x@.len() == old(x)@.len(),
            x@[hi - 1] == pivot,
            x@.subrange(lo as int, hi as int).to_multiset() == old(x)@.subrange(
                lo as int,
                hi as int,
            ).to_multiset(),
            x@.subrange(0, lo as int) == old(x)@.subrange(0, lo as int),
            x@.subrange(hi as int, old(x)@.len() as int) == old(x)@.subrange(
                hi as int,
                old(x)@.len() as int,
            ),
            forall|m: int| lo <= m < i ==> #[trigger] x@[m] < pivot,
            forall|m: int| i <= m < j ==> #[trigger] x@[m] >= pivot,
        decreases hi - 1 - j,
    {
        if x[j] < pivot {
            let ghost before = x@;
            swap_items(x, j, i);
            proof {
                lemma_swap_in_range(before, lo as int, hi as int, j as int, i as int);
            }
            i = i + 1;
        }
        j = j + 1;
    }
    let ghost before = x@;
    swap_items(x, i, hi - 1);
    proof {
        lemma_swap_in_range(before, lo as int, hi as int, i as int, hi as int - 1);
    }
    i
}

/// Quicksort over the window `[lo, hi)`; the rest of the vector is left
/// untouched.
pub fn quicksort_range(x: &mut Vec<i32>, lo: usize, hi: usize)
    requires
        lo <= hi <= old(x).len(),
    ensures
        final(x)@.len() == old(x)@.len(),
        sorted(final(x)@.subrange(lo as int, hi as int)),
        final(x)@.subrange(lo as int, hi as int).to_multiset() == old(x)@.subrange(
            lo as int,
            hi as int,
        ).to_multiset(),
        final(x)@.subrange(0, lo as int) == old(x)@.subrange(0, lo as int),
        final(x)@.subrange(hi as int, old(x)@.len() as int) == old(x)@.subrange(
            hi as int,
            old(x)@.len() as int,
        ),
    decreases hi - lo,
{
    if hi - lo <= 1 {
        proof {
            assert(x@.subrange(lo as int, hi as int) =~= old(x)@.subrange(lo as int, hi as int));
            assert(x@.subrange(0, lo as int) =~= old(x)@.subrange(0, lo as int));
            assert(x@.subrange(hi as int, old(x)@.len() as int) =~= old(x)@.subrange(
                hi as int,
                old(x)@.len() as int,
            ));
        }
        return ;
    }
    let p: usize = partition(x, lo, hi);
    let ghost after_part = x@;
    let ghost pivot = x@[p as int];
    quicksort_range(x, lo, p);
    let ghost after_left = x@;
    proof {
        assert(x@[p as int] == after_part[p as int]) by {
            assert(x@.subrange(p as int, after_part.len() as int) =~= after_part.subrange(
                p as int,
                after_part.len() as int,
            )) by {
                assert(x@.subrange(p as int, after_part.len() as int) == after_part.subrange(
                    p as int,
                    after_part.len() as int,
                ));
            }
            assert(after_part.subrange(p as int, after_part.len() as int)[0] == after_part[
                p as int]);
        }
        assert(after_part.subrange(lo as int, p as int).to_multiset() == x@.subrange(
            lo as int,
            p as int,
        ).to_multiset());
        assert(forall|m: int|
            0 <= m < after_part.subrange(lo as int, p as int).len()
                ==> #[trigger] after_part.subrange(lo as int, p as int)[m] < pivot);
        lemma_multiset_keeps_lt(
            after_part.subrange(lo as int, p as int),
            x@.subrange(lo as int, p as int),
            pivot,
        );
    }
    quicksort_range(x, p + 1, hi);
    proof {
        let fin = x@;
        // the pivot and the left half survived the right-hand recursion
        assert(fin.subrange(0, p as int + 1) == after_left.subrange(0, p as int + 1));
        assert(fin[p as int] == after_left[p as int]) by {
            assert(fin.subrange(0, p as int + 1)[p as int] == fin[p as int]);
            assert(after_left.subrange(0, p as int + 1)[p as int] == after_left[p as int]);
        }
        assert(fin.subrange(lo as int, p as int) =~= after_left.subrange(lo as int, p as int)) by {
            assert forall|m: int| 0 <= m < p - lo implies fin.subrange(lo as int, p as int)[m]
                == after_left.subrange(lo as int, p as int)[m] by {
                assert(fin.subrange(0, p as int + 1)[m + lo] == after_left.subrange(
                    0,
                    p as int + 1,
                )[m + lo]);
            }
        }
        // bounds for the right half carried across its recursion
        assert forall|m: int| p < m < after_left.len() implies after_left[m] == after_part[m] by {
            assert(after_left.subrange(p as int, after_left.len() as int)[m - p] == after_left[m]);
            assert(after_part.subrange(p as int, after_part.len() as int)[m - p] == after_part[m]);
        }
        assert(after_left.subrange(p as int + 1, hi as int).to_multiset() == after_part.subrange(
            p as int + 1,
            hi as int,
        ).to_multiset()) by {
            assert(after_left.subrange(p as int + 1, hi as int) =~= after_part.subrange(
                p as int + 1,
                hi as int,
            ));
        }
        assert(forall|m: int|
            0 <= m < after_part.subrange(p as int + 1, hi as int).len()
                ==> #[trigger] after_part.subrange(p as int + 1, hi as int)[m] >= pivot);
        lemma_multiset_keeps_ge(
            after_part.subrange(p as int + 1, hi as int),
            after_left.subrange(p as int + 1, hi as int),
            pivot,
        );
        lemma_multiset_keeps_ge(
            after_left.subrange(p as int + 1, hi as int),
            fin.subrange(p as int + 1, hi as int),
            pivot,
        );
        // stitch the window together
        assert forall|a: int, b: int| lo <= a <= b < hi implies #[trigger] fin[a]
            <= #[trigger] fin[b] by {
            let ls = fin.subrange(lo as int, p as int);
            let rs = fin.subrange(p as int + 1, hi as int);
            if a < p {
                assert(ls[a - lo] == fin[a]);
                assert(ls[a - lo] < pivot);
            }
            if b < p {
                assert(ls[b - lo] == fin[b]);
            }
            if a > p {
                assert(rs[a - p - 1] == fin[a]);
            }
            if b > p {
                assert(rs[b - p - 1] == fin[b]);
                assert(rs[b - p - 1] >= pivot);
            }
            if a < p && b < p {
                assert(sorted(ls));
                assert(ls[a - lo] <= ls[b - lo]);
            } else if a > p && b > p {
                assert(sorted(rs));
                assert(rs[a - p - 1] <= rs[b - p - 1]);
            }
        }
        // multisets compose across the three pieces
        assert(fin.subrange(lo as int, hi as int) =~= fin.subrange(lo as int, p as int) + seq![
            fin[p as int]] + fin.subrange(p as int + 1, hi as int));
        assert(after_part.subrange(lo as int, hi as int) =~= after_part.subrange(
            lo as int,
            p as int,
        ) + seq![after_part[p as int]] + after_part.subrange(p as int + 1, hi as int));
        broadcast use lemma_multiset_commutative;
        broadcast use group_to_multiset_ensures;

        assert(fin.subrange(lo as int, hi as int).to_multiset() == after_part.subrange(
            lo as int,
            hi as int,
        ).to_multiset());
        assert forall|m: int| p < m < after_left.len() implies after_left[m] == after_part[m] by {
            assert(after_left.subrange(p as int, after_left.len() as int)[m - p] == after_left[m]);
            assert(after_part.subrange(p as int, after_part.len() as int)[m - p] == after_part[m]);
        }
        assert forall|m: int| hi <= m < fin.len() implies fin[m] == after_left[m] by {
            assert(fin.subrange(hi as int, fin.len() as int)[m - hi] == fin[m]);
            assert(after_left.subrange(hi as int, after_left.len() as int)[m - hi] == after_left[m]);
        }
        assert(fin.subrange(0, lo as int) =~= after_part.subrange(0, lo as int));
        assert(fin.subrange(hi as int, fin.len() as int) =~= after_part.subrange(
            hi as int,
            after_part.len() as int,
        ));
    }
}

/// Quicksort in place.
pub fn quicksort(x: &mut Vec<i32>)
    ensures
        sorted(final(x)@),
        final(x)@.to_multiset() == old(x)@.to_multiset(),
        final(x)@.len() == old(x)@.len(),
{
    let n: usize = x.len();
    quicksort_range(x, 0, n);
    proof {
        assert(x@.subrange(0, n as int) =~= x@);
        assert(old(x)@.subrange(0, n as int) =~= old(x)@);
    }
}

/// Bubble sort: sweep adjacent pairs until a sweep makes no exchange.
/// The sweep indexes up to `len - 1`, so the list may not be empty.
pub fn bubble_sort(x: Vec<i32>) -> (r: Vec<i32>)
    requires
        x@.len() >= 1,
    ensures
        sorted(r@),
        r@.to_multiset() == x@.to_multiset(),
        r@.len() == x@.len(),
{
    let mut x = x;
    let ghost orig = x@;
    let n: usize = x.len();
    let mut pass: usize = 0;
    let mut swapped: bool = true;
    while swapped
        invariant
            n == x@.len() >= 1,
            pass <= n,
            x@.to_multiset() == orig.to_multiset(),
            swapped ==> pass < n,
            forall|p: int, q: int|
                n - pass <= p <= q < n ==> #[trigger] x@[p] <= #[trigger] x@[q],
            forall|p: int, q: int|
                0 <= p < n - pass && n - pass <= q < n ==> #[trigger] x@[p] <= #[trigger] x@[q],
            !swapped ==> sorted(x@),
        decreases n - pass,
    {
        let ghost at_start = x@;
        proof {
            if pass == n - 1 {
                assert forall|a: int, b: int| 0 <= a <= b < n implies #[trigger] at_start[a]
                    <= #[trigger] at_start[b] by {
                    if a == 0 && b > 0 {
                        assert(at_start[0] <= at_start[b]);
                    }
                };
            }
        }
        swapped = false;
        let mut k: usize = 0;
        while k < n - 1
            invariant
                k <= n - 1,
                n == x@.len() >= 1,
                pass < n,
                at_start.len() == n,
                x@.to_multiset() == orig.to_multiset(),
                forall|p: int, q: int|
                    n - pass <= p <= q < n ==> #[trigger] x@[p] <= #[trigger] x@[q],
                forall|p: int, q: int|
                    0 <= p < n - pass && n - pass <= q < n ==> #[trigger] x@[p] <= #[trigger] x@[q],
                forall|m: int| 0 <= m < k ==> #[trigger] x@[m] <= x@[k as int],
                !swapped ==> x@ == at_start,
                !swapped ==> sorted(x@.take(k as int + 1)),
                sorted(at_start) ==> !swapped,
                (pass >= 1 && k >= n - pass) ==> (forall|m: int|
                    0 <= m < n - pass ==> #[trigger] x@[m] <= x@[n - pass - 1]),
            decreases n - 1 - k,
        {
            if x[k] > x[k + 1] {
                proof {
                    // exchanges never reach the sorted suffix
                    if k + 1 >= n - pass {
                        assert(x@[k as int] <= x@[k as int + 1]);
                        assert(false);
                    }
                }
                let ghost before = x@;
                swap_items(&mut x, k, k + 1);
                swapped = true;
                proof {
                    assert forall|m: int| 0 <= m < k + 1 implies #[trigger] x@[m] <= x@[k as int
                        + 1] by {
                        if m < k {
                            assert(before[m] <= before[k as int]);
                        }
                    };
                }
            } else {
                proof {
                    if !swapped {
                        assert(x@.take(k as int + 2).drop_last() =~= x@.take(k as int + 1));
                        assert forall|a: int, b: int| 0 <= a <= b < k + 2 implies #[trigger] x@.take(
                            k as int + 2,
                        )[a] <= #[trigger] x@.take(k as int + 2)[b] by {
                            if b <= k {
                                assert(x@.take(k as int + 1)[a] <= x@.take(k as int + 1)[b]);
                            } else if a <= k {
                                assert(x@.take(k as int + 1)[a] <= x@.take(k as int + 1)[k as int]);
                            }
                        };
                    }
                }
            }
            k = k + 1;
            proof {
                if pass >= 1 && k == n - pass {
                    assert forall|m: int| 0 <= m < n - pass implies #[trigger] x@[m] <= x@[n - pass
                        - 1] by {
                        if m < k - 1 {
                            assert(x@[m] <= x@[k as int - 1]);
                        }
                    };
                }
            }
        }
        pass = pass + 1;
        proof {
            assert forall|p: int, q: int| n - pass <= p <= q < n implies #[trigger] x@[p]
                <= #[trigger] x@[q] by {
                if p >= n - pass + 1 {
                } else if q >= n - pass + 1 {
                    assert(x@[p] <= x@[q]);
                }
            };
            assert forall|p: int, q: int|
                0 <= p < n - pass && n - pass <= q < n implies #[trigger] x@[p] <= #[trigger] x@[q]
                by {
                if q == n - pass {
                    if pass == 1 {
                        assert(x@[p] <= x@[n as int - 1]);
                    } else {
                        assert(x@[p] <= x@[n - (pass - 1) - 1]);
                    }
                }
            };
            if !swapped {
                assert(x@.take(n as int) =~= x@);
            }
        }
    }
    x
}

/// Membership in the binary-heap subtree rooted at `root`, following
/// parent links through the array layout.
pub open spec fn in_subtree(root: int, j: int) -> bool
    decreases (if j > root { j - root } else { 0 }),
{
    if j < root || root < 0 {
        false
    } else if j == root {
        true
    } else {
        in_subtree(root, (j - 1) / 2)
    }
}

/// Node `j` respects the max-heap shape towards each of its children
/// that lies below `n`.
pub open spec fn heap_node_ok(s: Seq<i32>, n: int, j: int) -> bool {
    (2 * j + 1 < n ==> s[j] >= s[2 * j + 1]) && (2 * j + 2 < n ==> s[j] >= s[2 * j + 2])
}

/// The max-heap shape on every node from `lo` up to `n`.
pub open spec fn heap_from(s: Seq<i32>, lo: int, n: int) -> bool {
    forall|j: int| lo <= j < n ==> #[trigger] heap_node_ok(s, n, j)
}

/// Every index belongs to the subtree of the root of the array.
proof fn lemma_subtree_of_zero(m: int)
    requires
        0 <= m,
    ensures
        in_subtree(0, m),
    decreases m,
{
    if m > 0 {
        lemma_subtree_of_zero((m - 1) / 2);
    }
}

/// Subtree membership composes along the tree.
proof fn lemma_subtree_trans(a: int, b: int, m: int)
    requires
        in_subtree(a, b),
        in_subtree(b, m),
    ensures
        in_subtree(a, m),
    decreases (if m > b { m - b } else { 0 }),
{
    if m > b {
        lemma_subtree_trans(a, b, (m - 1) / 2);
    }
}

/// The max-heap shape on the proper subtree of `root`: every node of the
/// subtree strictly below the root respects it.
pub open spec fn heap_subtree_below(s: Seq<i32>, n: int, root: int) -> bool {
    forall|j: int| root < j < n && #[trigger] in_subtree(root, j) ==> heap_node_ok(s, n, j)
}

/// The max-heap shape on the whole subtree of `root`, the root included.
pub open spec fn heap_subtree_at(s: Seq<i32>, n: int, root: int) -> bool {
    forall|j: int| root <= j < n && #[trigger] in_subtree(root, j) ==> heap_node_ok(s, n, j)
}

/// Any two indices whose values differ between `pre` and `post` are
/// comparable in the tree order: one lies in the other's subtree, so all
/// changed cells sit on a single root-to-leaf chain.
pub open spec fn changed_on_chain(pre: Seq<i32>, post: Seq<i32>, m1: int, m2: int) -> bool {
    (0 <= m1 < pre.len() && 0 <= m2 < pre.len() && post[m1] != pre[m1] && post[m2] != pre[m2])
        ==> (in_subtree(m1, m2) || in_subtree(m2, m1))
}

/// A node strictly past a subtree it does not belong to keeps its
/// children outside that subtree too.
proof fn lemma_outside_subtree_children(root: int, j: int)
    requires
        0 <= root < j,
        !in_subtree(root, j),
    ensures
        !in_subtree(root, 2 * j + 1),
        !in_subtree(root, 2 * j + 2),
{
    assert((2 * j + 1 - 1) / 2 == j);
    assert((2 * j + 2 - 1) / 2 == j);
}

/// In a heap-shaped subtree, no node exceeds the subtree's root.
proof fn lemma_subtree_max(s: Seq<i32>, c: int, n: int, m: int)
    requires
        0 <= c < n <= s.len(),
        heap_subtree_at(s, n, c),
        in_subtree(c, m),
        m < n,
    ensures
        s[m] <= s[c],
    decreases (if m > c { m - c } else { 0 }),
{
    if m > c {
        let p = (m - 1) / 2;
        assert(m == 2 * p + 1 || m == 2 * p + 2);
        lemma_subtree_max(s, c, n, p);
        assert(heap_node_ok(s, n, p));
        assert(s[m] <= s[p]);
    }
}

/// The `lemma_multiset_keeps_lt` pattern for an upper bound.
proof fn lemma_multiset_keeps_le(s1: Seq<i32>, s2: Seq<i32>, v: i32)
    requires
        s1.to_multiset() == s2.to_multiset(),
        forall|m: int| 0 <= m < s1.len() ==> #[trigger] s1[m] <= v,
    ensures
        forall|m: int| 0 <= m < s2.len() ==> #[trigger] s2[m] <= v,
{
    broadcast use group_to_multiset_ensures;

    assert forall|m: int| 0 <= m < s2.len() implies #[trigger] s2[m] <= v by {
        assert(s2.contains(s2[m]));
        assert(s2.to_multiset().count(s2[m]) > 0);
        assert(s1.contains(s2[m]));
        let j = choose|j: int| 0 <= j < s1.len() && s1[j] == s2[m];
    }
}

/// The provenance half of the stitch: every cell of the root's subtree
/// ends up holding a value that some cell of that subtree held before.
#[verifier::rlimit(60)]
proof fn lemma_heapify_provenance(before: Seq<i32>, mid: Seq<i32>, fin: Seq<i32>, root: int, lg: int, n: int)
    requires
        0 <= root < n <= before.len(),
        lg == 2 * root + 1 || lg == 2 * root + 2,
        lg < n,
        mid == before.update(root, before[lg]).update(lg, before[root]),
        fin.len() == mid.len(),
        forall|m: int| 0 <= m < mid.len() && !in_subtree(lg, m) ==> fin[m] == mid[m],
        forall|m: int|
            0 <= m < n && in_subtree(lg, m) ==> exists|k: int|
                0 <= k < n && #[trigger] in_subtree(lg, k) && fin[m] == mid[k],
    ensures
        forall|m: int|
            0 <= m < n && in_subtree(root, m) ==> exists|k: int|
                0 <= k < n && #[trigger] in_subtree(root, k) && fin[m] == before[k],
{
    assert(in_subtree(root, root));
    assert(in_subtree(root, lg));
    assert(!in_subtree(lg, root));
    assert forall|m: int|
        0 <= m < n && in_subtree(root, m) implies exists|k: int|
        0 <= k < n && #[trigger] in_subtree(root, k) && fin[m] == before[k] by {
        if m == root {
            assert(fin[m] == mid[m]);
            assert(fin[m] == before[lg]);
        } else if in_subtree(lg, m) {
            let k0 = choose|k0: int| 0 <= k0 < n && #[trigger] in_subtree(lg, k0) && fin[m] == mid[k0];
            lemma_subtree_trans(root, lg, k0);
            if k0 == lg {
                assert(fin[m] == before[root]);
            } else {
                assert(mid[k0] == before[k0]);
                assert(in_subtree(root, k0) && fin[m] == before[k0]);
            }
        } else {
            assert(fin[m] == mid[m]);
            assert(m != root && m != lg);
            assert(mid[m] == before[m]);
            assert(in_subtree(root, m) && fin[m] == before[m]);
        }
    };
}

/// The chain half of the stitch: the swap touched the root and its
/// child, the recursion touched a chain under that child, so all changed
/// cells still sit on one root-to-leaf chain.
#[verifier::rlimit(60)]
proof fn lemma_heapify_chain(before: Seq<i32>, mid: Seq<i32>, fin: Seq<i32>, root: int, lg: int, n: int)
    requires
        0 <= root < n <= before.len(),
        lg == 2 * root + 1 || lg == 2 * root + 2,
        lg < n,
        mid == before.update(root, before[lg]).update(lg, before[root]),
        fin.len() == mid.len(),
        forall|m: int| 0 <= m < mid.len() && !in_subtree(lg, m) ==> fin[m] == mid[m],
        forall|m1: int, m2: int| #[trigger] changed_on_chain(mid, fin, m1, m2),
    ensures
        forall|m1: int, m2: int| #[trigger] changed_on_chain(before, fin, m1, m2),
{
    assert(in_subtree(root, root));
    assert(in_subtree(root, lg));
    assert(!in_subtree(lg, root));
    assert forall|m1: int, m2: int| #[trigger] changed_on_chain(before, fin, m1, m2) by {
        if 0 <= m1 < before.len() && 0 <= m2 < before.len() && fin[m1] != before[m1] && fin[m2]
            != before[m2] {
            if m1 != root && m1 != lg {
                assert(fin[m1] != mid[m1]);
                assert(in_subtree(lg, m1));
            }
            if m2 != root && m2 != lg {
                assert(fin[m2] != mid[m2]);
                assert(in_subtree(lg, m2));
            }
            if m1 == root {
                if m2 == root {
                } else if m2 == lg {
                } else {
                    lemma_subtree_trans(root, lg, m2);
                }
            } else if m2 == root {
                if m1 == lg {
                } else {
                    lemma_subtree_trans(root, lg, m1);
                }
            } else if m1 == lg {
                assert(in_subtree(lg, lg));
            } else if m2 == lg {
                assert(in_subtree(lg, lg));
            } else {
                assert(changed_on_chain(mid, fin, m1, m2));
                assert(in_subtree(m1, m2) || in_subtree(m2, m1));
            }
        }
    };
}

/// After the stitch, the root itself respects the heap shape: both of
/// its children hold values at most the promoted one.
#[verifier::rlimit(60)]
proof fn lemma_heapify_root_ok(before: Seq<i32>, mid: Seq<i32>, fin: Seq<i32>, root: int, lg: int, n: int)
    requires
        0 <= root < n <= before.len(),
        lg == 2 * root + 1 || lg == 2 * root + 2,
        lg < n,
        mid == before.update(root, before[lg]).update(lg, before[root]),
        fin.len() == mid.len(),
        heap_subtree_below(before, n, root),
        before[lg] > before[root],
        2 * root + 1 < n ==> before[lg] >= before[2 * root + 1],
        2 * root + 2 < n ==> before[lg] >= before[2 * root + 2],
        forall|m: int| 0 <= m < mid.len() && !in_subtree(lg, m) ==> fin[m] == mid[m],
        forall|m: int|
            0 <= m < n && in_subtree(lg, m) ==> exists|k: int|
                0 <= k < n && #[trigger] in_subtree(lg, k) && fin[m] == mid[k],
    ensures
        heap_node_ok(fin, n, root),
        fin[root] == before[lg],
{
    assert(in_subtree(root, root));
    assert(in_subtree(root, lg));
    assert(!in_subtree(lg, root));
    assert(heap_subtree_at(before, n, lg)) by {
        assert forall|jj: int|
            lg <= jj < n && #[trigger] in_subtree(lg, jj) implies heap_node_ok(before, n, jj) by {
            lemma_subtree_trans(root, lg, jj);
        };
    }
    assert(fin[root] == mid[root]);
    assert(fin[root] == before[lg]);
    assert forall|c: int|
        (c == 2 * root + 1 || c == 2 * root + 2) && c < n implies fin[c] <= fin[root] by {
        if c == lg {
            assert(in_subtree(lg, lg));
            assert(exists|k: int| 0 <= k < n && #[trigger] in_subtree(lg, k) && fin[c] == mid[k]);
            let k = choose|k: int| 0 <= k < n && #[trigger] in_subtree(lg, k) && fin[c] == mid[k];
            if k == lg {
                assert(mid[lg] == before[root]);
                assert(fin[c] == before[root]);
            } else {
                assert(mid[k] == before[k]);
                lemma_subtree_max(before, lg, n, k);
            }
        } else {
            assert(!in_subtree(lg, c)) by {
                if c > lg {
                    assert(in_subtree(lg, c) == in_subtree(lg, (c - 1) / 2));
                    assert((c - 1) / 2 == root);
                }
            }
            assert(fin[c] == mid[c]);
            assert(mid[c] == before[c]);
        }
    };
}

/// After the stitch, the subtree nodes the recursion did not touch keep
/// the heap shape they came in with.
#[verifier::rlimit(60)]
proof fn lemma_heapify_uncovered(before: Seq<i32>, mid: Seq<i32>, fin: Seq<i32>, root: int, lg: int, n: int)
    requires
        0 <= root < n <= before.len(),
        lg == 2 * root + 1 || lg == 2 * root + 2,
        lg < n,
        mid == before.update(root, before[lg]).update(lg, before[root]),
        fin.len() == mid.len(),
        heap_subtree_below(before, n, root),
        forall|m: int| 0 <= m < mid.len() && !in_subtree(lg, m) ==> fin[m] == mid[m],
    ensures
        forall|j: int|
            root < j < n && j != lg && #[trigger] in_subtree(root, j) && !in_subtree(lg, j)
                ==> heap_node_ok(fin, n, j),
{
    assert forall|j: int|
        root < j < n && j != lg && #[trigger] in_subtree(root, j) && !in_subtree(
            lg,
            j,
        ) implies heap_node_ok(fin, n, j) by {
        assert(fin[j] == mid[j]);
        assert(mid[j] == before[j]);
        assert(heap_node_ok(before, n, j));
        if 2 * j + 1 < n {
            assert(!in_subtree(lg, 2 * j + 1)) by {
                if 2 * j + 1 != lg {
                    assert(in_subtree(lg, 2 * j + 1) == in_subtree(lg, j));
                } else {
                    assert(j == root);
                }
            }
            assert(fin[2 * j + 1] == mid[2 * j + 1]);
            assert(mid[2 * j + 1] == before[2 * j + 1]);
        }
        if 2 * j + 2 < n {
            assert(!in_subtree(lg, 2 * j + 2)) by {
                if 2 * j + 2 != lg {
                    assert(in_subtree(lg, 2 * j + 2) == in_subtree(lg, j));
                } else {
                    assert(j == root);
                }
            }
            assert(fin[2 * j + 2] == mid[2 * j + 2]);
            assert(mid[2 * j + 2] == before[2 * j + 2]);
        }
    };
}

/// Assemble the full subtree shape and the outside frame from the
/// stitched pieces.
#[verifier::rlimit(60)]
proof fn lemma_heapify_assemble(before: Seq<i32>, mid: Seq<i32>, fin: Seq<i32>, root: int, lg: int, n: int)
    requires
        0 <= root < n <= before.len(),
        lg == 2 * root + 1 || lg == 2 * root + 2,
        lg < n,
        mid == before.update(root, before[lg]).update(lg, before[root]),
        fin.len() == mid.len(),
        heap_node_ok(fin, n, root),
        heap_subtree_at(fin, n, lg),
        forall|j: int|
            root < j < n && j != lg && #[trigger] in_subtree(root, j) && !in_subtree(lg, j)
                ==> heap_node_ok(fin, n, j),
        forall|m: int| 0 <= m < mid.len() && !in_subtree(lg, m) ==> fin[m] == mid[m],
        forall|m: int| n <= m < mid.len() ==> fin[m] == mid[m],
    ensures
        heap_subtree_at(fin, n, root),
        forall|m: int| 0 <= m < before.len() && !in_subtree(root, m) ==> fin[m] == before[m],
        forall|m: int| n <= m < before.len() ==> fin[m] == before[m],
{
    assert(in_subtree(root, root));
    assert(in_subtree(root, lg));
    assert(!in_subtree(lg, root));
    assert forall|j: int| root <= j < n && #[trigger] in_subtree(root, j) implies heap_node_ok(
        fin,
        n,
        j,
    ) by {
        if j == root {
        } else if in_subtree(lg, j) {
            assert(heap_node_ok(fin, n, j));
        } else {
            assert(heap_node_ok(fin, n, j));
        }
    };
    assert forall|m: int|
        0 <= m < before.len() && !in_subtree(root, m) implies fin[m] == before[m] by {
        assert(!in_subtree(lg, m)) by {
            if in_subtree(lg, m) {
                lemma_subtree_trans(root, lg, m);
            }
        }
        assert(fin[m] == mid[m]);
        assert(m != root && m != lg);
        assert(mid[m] == before[m]);
    };
    assert forall|m: int| n <= m < before.len() implies fin[m] == before[m] by {
        assert(fin[m] == mid[m]);
        assert(m != root && m != lg);
        assert(mid[m] == before[m]);
    };
}

/// Stitch a sink step back together: the swap of the root with its
/// larger child, followed by a finished sink of that child's subtree,
/// yields a heap-shaped subtree at the root, touches nothing outside it,
/// keeps the multiset of positions' values, and changes only indices on
/// one root-to-leaf chain.
#[verifier::rlimit(100)]
proof fn lemma_heapify_combine(before: Seq<i32>, mid: Seq<i32>, fin: Seq<i32>, root: int, lg: int, n: int)
    requires
        0 <= root < n <= before.len(),
        lg == 2 * root + 1 || lg == 2 * root + 2,
        lg < n,
        mid == before.update(root, before[lg]).update(lg, before[root]),
        fin.len() == mid.len(),
        heap_subtree_below(before, n, root),
        before[lg] > before[root],
        2 * root + 1 < n ==> before[lg] >= before[2 * root + 1],
        2 * root + 2 < n ==> before[lg] >= before[2 * root + 2],
        heap_subtree_at(fin, n, lg),
        forall|m: int| 0 <= m < mid.len() && !in_subtree(lg, m) ==> fin[m] == mid[m],
        forall|m: int| n <= m < mid.len() ==> fin[m] == mid[m],
        forall|m: int|
            0 <= m < n && in_subtree(lg, m) ==> exists|k: int|
                0 <= k < n && #[trigger] in_subtree(lg, k) && fin[m] == mid[k],
        forall|m1: int, m2: int| #[trigger] changed_on_chain(mid, fin, m1, m2),
    ensures
        heap_subtree_at(fin, n, root),
        forall|m: int| 0 <= m < before.len() && !in_subtree(root, m) ==> fin[m] == before[m],
        forall|m: int| n <= m < before.len() ==> fin[m] == before[m],
        forall|m: int|
            0 <= m < n && in_subtree(root, m) ==> exists|k: int|
                0 <= k < n && #[trigger] in_subtree(root, k) && fin[m] == before[k],
        forall|m1: int, m2: int| #[trigger] changed_on_chain(before, fin, m1, m2),
{
    lemma_heapify_root_ok(before, mid, fin, root, lg, n);
    lemma_heapify_uncovered(before, mid, fin, root, lg, n);
    lemma_heapify_assemble(before, mid, fin, root, lg, n);
    lemma_heapify_provenance(before, mid, fin, root, lg, n);
    lemma_heapify_chain(before, mid, fin, root, lg, n);
}

/// Sink the value at `root_idx` until the subtree below it is a heap
/// again. Only the two subtrees under the root need to be heaps going
/// in; coming out the whole subtree is one, everything outside it (and
/// everything at `n` and beyond) is untouched, and the indices that did
/// change lie on a single root-to-leaf chain.
#[verifier::rlimit(100)]
pub fn heapify(x: &mut Vec<i32>, root_idx: usize, n: usize)
    requires
        root_idx < n <= old(x).len(),
        n < usize::MAX / 2,
        heap_subtree_below(old(x)@, n as int, root_idx as int),
    ensures
        final(x)@.len() == old(x)@.len(),
        final(x)@.to_multiset() == old(x)@.to_multiset(),
        heap_subtree_at(final(x)@, n as int, root_idx as int),
        forall|m: int|
            0 <= m < old(x)@.len() && !in_subtree(root_idx as int, m) ==> final(x)@[m] == old(
                x,
            )@[m],
        forall|m: int| n <= m < old(x)@.len() ==> final(x)@[m] == old(x)@[m],
        forall|m: int|
            0 <= m < n && in_subtree(root_idx as int, m) ==> exists|k: int|
                0 <= k < n && #[trigger] in_subtree(root_idx as int, k) && final(x)@[m] == old(
                    x,
                )@[k],
        forall|m1: int, m2: int| #[trigger] changed_on_chain(old(x)@, final(x)@, m1, m2),
    decreases n - root_idx,
{
    let ghost root: int = root_idx as int;
    let mut largest: usize = root_idx;
    let left: usize = 2 * root_idx + 1;
    let right: usize = 2 * root_idx + 2;
    if left < n && x[left] > x[largest] {
        largest = left;
    }
    if right < n && x[right] > x[largest] {
        largest = right;
    }
    proof {
        assert(in_subtree(root, root));
        if left < n {
            assert(in_subtree(root, left as int));
        }
        if right < n {
            assert(in_subtree(root, right as int));
        }
    }
    if largest == root_idx {
        proof {
            assert(heap_node_ok(x@, n as int, root));
            assert forall|j: int|
                root <= j < n && #[trigger] in_subtree(root, j) implies heap_node_ok(
                x@,
                n as int,
                j,
            ) by {};
            assert forall|m: int|
                0 <= m < n && in_subtree(root, m) implies exists|k: int|
                0 <= k < n && #[trigger] in_subtree(root, k) && x@[m] == x@[k] by {
                assert(in_subtree(root, m) && x@[m] == x@[m]);
            };
        }
    } else {
        let ghost before = x@;
        swap_items(x, root_idx, largest);
        let ghost mid = x@;
        proof {
            assert forall|j: int|
                largest < j < n && #[trigger] in_subtree(largest as int, j) implies heap_node_ok(
                mid,
                n as int,
                j,
            ) by {
                lemma_subtree_trans(root, largest as int, j);
                assert(heap_node_ok(before, n as int, j));
                assert(mid[j] == before[j]);
                if 2 * j + 1 < n {
                    assert(mid[2 * j + 1] == before[2 * j + 1]);
                }
                if 2 * j + 2 < n {
                    assert(mid[2 * j + 2] == before[2 * j + 2]);
                }
            };
        }
        heapify(x, largest, n);
        proof {
            lemma_heapify_combine(before, mid, x@, root, largest as int, n as int);
        }
    }
}

/// Heap sort: build a max-heap, then repeatedly move the root past the
/// sorted tail.
pub fn heap_sort(x: &mut Vec<i32>)
    requires
        old(x).len() < usize::MAX / 2,
    ensures
        sorted(final(x)@),
        final(x)@.to_multiset() == old(x)@.to_multiset(),
        final(x)@.len() == old(x)@.len(),
{
    let n: usize = x.len();
    proof {
        assert forall|j: int| n / 2 <= j < n implies #[trigger] heap_node_ok(
            x@,
            n as int,
            j,
        ) by {};
    }
    let mut i: usize = n / 2;
    while i > 0
        invariant
            i <= n,
            n == x@.len() < usize::MAX / 2,
            x@.to_multiset() == old(x)@.to_multiset(),
            heap_from(x@, i as int, n as int),
        decreases i,
    {
        i = i - 1;
        let ghost pre = x@;
        proof {
            assert forall|j: int|
                i < j < n && #[trigger] in_subtree(i as int, j) implies heap_node_ok(
                pre,
                n as int,
                j,
            ) by {};
        }
        heapify(x, i, n);
        proof {
            assert forall|j: int| i <= j < n implies #[trigger] heap_node_ok(
                x@,
                n as int,
                j,
            ) by {
                if in_subtree(i as int, j) {
                    assert(heap_node_ok(x@, n as int, j));
                } else {
                    lemma_outside_subtree_children(i as int, j);
                    assert(x@[j] == pre[j]);
                    if 2 * j + 1 < n {
                        assert(x@[2 * j + 1] == pre[2 * j + 1]);
                    }
                    if 2 * j + 2 < n {
                        assert(x@[2 * j + 2] == pre[2 * j + 2]);
                    }
                    assert(heap_node_ok(pre, n as int, j));
                }
            };
        }
    }
    if n <= 1 {
        return ;
    }
    proof {
        assert(heap_from(x@, 0, n as int));
    }
    let mut j: usize = n;
    while j > 1
        invariant
            1 <= j <= n,
            n == x@.len() < usize::MAX / 2,
            x@.to_multiset() == old(x)@.to_multiset(),
            heap_from(x@, 0, j as int),
            forall|p: int, q: int| j <= p <= q < n ==> #[trigger] x@[p] <= #[trigger] x@[q],
            forall|p: int, q: int| 0 <= p < j <= q < n ==> #[trigger] x@[p] <= #[trigger] x@[q],
        decreases j,
    {
        j = j - 1;
        let ghost before = x@;
        swap_items(x, j, 0);
        let ghost mid = x@;
        proof {
            // after the swap the prefix below j is still a heap from node 1
            assert forall|m: int| 1 <= m < j implies #[trigger] heap_node_ok(mid, j as int, m) by {
                assert(heap_node_ok(before, j as int + 1, m));
                assert(mid[m] == before[m]);
                if 2 * m + 1 < j {
                    assert(mid[2 * m + 1] == before[2 * m + 1]);
                }
                if 2 * m + 2 < j {
                    assert(mid[2 * m + 2] == before[2 * m + 2]);
                }
            };
        }
        heapify(x, 0, j);
        proof {
            let fin = x@;
            assert forall|m: int| 0 <= m < j implies #[trigger] heap_node_ok(
                fin,
                j as int,
                m,
            ) by {
                lemma_subtree_of_zero(m);
            };
            // the sorted tail, including the fresh maximum at j, was untouched
            assert forall|m: int| j <= m < n implies fin[m] == mid[m] by {};
            assert(fin[j as int] == before[0]);
            // every element of before's heap is at most before[0]
            assert(heap_subtree_at(before, j as int + 1, 0)) by {
                assert forall|jj: int|
                    0 <= jj < j + 1 && #[trigger] in_subtree(0, jj) implies heap_node_ok(
                    before,
                    j as int + 1,
                    jj,
                ) by {};
            }
            assert forall|m: int| 0 <= m <= j implies #[trigger] before[m] <= before[0] by {
                lemma_subtree_of_zero(m);
                lemma_subtree_max(before, 0, j as int + 1, m);
            };
            // the reworked prefix only permutes the swapped prefix
            assert(fin.subrange(j as int, n as int) =~= mid.subrange(j as int, n as int));
            assert(fin =~= fin.subrange(0, j as int) + fin.subrange(j as int, n as int));
            assert(mid =~= mid.subrange(0, j as int) + mid.subrange(j as int, n as int));
            broadcast use lemma_multiset_commutative;
            broadcast use group_to_multiset_ensures;
            broadcast use vstd::multiset::group_multiset_axioms;

            assert(fin.to_multiset() == mid.to_multiset());
            assert(fin.subrange(0, j as int).to_multiset().add(
                fin.subrange(j as int, n as int).to_multiset(),
            ) == mid.subrange(0, j as int).to_multiset().add(
                mid.subrange(j as int, n as int).to_multiset(),
            ));
            assert(fin.subrange(0, j as int).to_multiset() =~= mid.subrange(
                0,
                j as int,
            ).to_multiset()) by {
                let c = fin.subrange(j as int, n as int).to_multiset();
                let m1 = fin.subrange(0, j as int).to_multiset();
                let m2 = mid.subrange(0, j as int).to_multiset();
                assert(m1.add(c) == m2.add(c));
                assert forall|e: i32| m1.count(e) == m2.count(e) by {
                    assert(m1.add(c).count(e) == m1.count(e) + c.count(e));
                    assert(m2.add(c).count(e) == m2.count(e) + c.count(e));
                };
            }
            // each prefix value is bounded by the value parked at j
            assert forall|m: int| 0 <= m < j implies #[trigger] mid.subrange(0, j as int)[m]
                <= before[0] by {
                if m == 0 {
                    assert(mid[0] == before[j as int]);
                } else {
                    assert(mid[m] == before[m]);
                }
            };
            lemma_multiset_keeps_le(
                mid.subrange(0, j as int),
                fin.subrange(0, j as int),
                before[0],
            );
            // restore the outer invariants
            assert forall|p: int, q: int| j <= p <= q < n implies #[trigger] fin[p]
                <= #[trigger] fin[q] by {
                if p == j && q > j {
                    assert(before[0] <= before[q]);
                    assert(fin[q] == before[q]);
                } else if p > j {
                    assert(fin[p] == before[p]);
                    assert(fin[q] == before[q]);
                }
            };
            assert forall|p: int, q: int| 0 <= p < j <= q < n implies #[trigger] fin[p]
                <= #[trigger] fin[q] by {
                assert(fin.subrange(0, j as int)[p] == fin[p]);
                assert(fin[p] <= before[0]);
                if q == j {
                    assert(fin[q] == before[0]);
                } else {
                    assert(before[0] <= before[q]);
                    assert(fin[q] == before[q]);
                }
            };
        }
    }
    proof {
        assert forall|a: int, b: int| 0 <= a <= b < n implies #[trigger] x@[a] <= #[trigger] x@[b]
            by {
            if a == 0 && b >= 1 {
                assert(x@[a] <= x@[b]);
            }
        };
    }
}

} // verus!
