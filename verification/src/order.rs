//! Order statistics of finite sample sequences.
//!
//! The median filter is specified against the ascending arrangement of a
//! window. Selection is proved against it through [`settled`], the fact that a
//! partition step establishes about the position of its pivot.

use vstd::prelude::*;
use vstd::relations::{sorted_by, total_ordering};
use vstd::seq_lib::{lemma_multiset_commutative, lemma_sorted_unique, to_multiset_len, to_multiset_update};

verus! {

/// The order samples are compared by.
pub open spec fn sample_leq() -> spec_fn(i64, i64) -> bool {
    |a: i64, b: i64| a <= b
}

/// The samples of `s` arranged in ascending order.
pub open spec fn ascending(s: Seq<i64>) -> Seq<i64> {
    s.sort_by(sample_leq())
}

/// The `k`-th smallest sample of `s`, counting from zero.
pub open spec fn order_statistic(s: Seq<i64>, k: int) -> i64
    recommends
        0 <= k < s.len(),
{
    ascending(s)[k]
}

/// Two sequences that hold the same samples, each as often as the other.
pub open spec fn same_samples(a: Seq<i64>, b: Seq<i64>) -> bool {
    a.to_multiset() == b.to_multiset()
}

/// `s` with the samples at positions `i` and `j` exchanged.
pub open spec fn exchanged(s: Seq<i64>, i: int, j: int) -> Seq<i64>
    recommends
        0 <= i < s.len(),
        0 <= j < s.len(),
{
    s.update(i, s[j]).update(j, s[i])
}

/// Position `k` of `s` holds a sample that nothing before it exceeds and
/// nothing after it falls below.
pub open spec fn settled(s: Seq<i64>, k: int) -> bool {
    &&& 0 <= k < s.len()
    &&& forall|i: int| 0 <= i < k ==> #[trigger] s[i] <= s[k]
    &&& forall|j: int| k < j < s.len() ==> s[k] <= #[trigger] s[j]
}

/// `<=` on samples is a total order.
pub proof fn lemma_sample_leq_total()
    ensures
        total_ordering(sample_leq()),
{
    let leq = sample_leq();
    assert(forall|a: i64, b: i64| #[trigger] leq(a, b) <==> a <= b);
}

/// The ascending arrangement keeps the samples, has the same length and is
/// sorted.
pub proof fn lemma_ascending(s: Seq<i64>)
    ensures
        same_samples(ascending(s), s),
        ascending(s).len() == s.len(),
        forall|i: int, j: int| 0 <= i <= j < s.len() ==> ascending(s)[i] <= ascending(s)[j],
        forall|i: int| 0 <= i < s.len() ==> s.contains(#[trigger] ascending(s)[i]),
{
    lemma_sample_leq_total();
    s.lemma_sort_by_ensures(sample_leq());
    to_multiset_len(s);
    to_multiset_len(ascending(s));
    let a = ascending(s);
    assert forall|i: int, j: int| 0 <= i <= j < s.len() implies a[i] <= a[j] by {
        if i < j {
            assert(sample_leq()(a[i], a[j]));
        }
    }
    assert forall|i: int| 0 <= i < s.len() implies s.contains(#[trigger] a[i]) by {
        assert(a.contains(a[i]));
    }
}

/// Sequences with the same samples have the same ascending arrangement.
pub proof fn lemma_ascending_of_same_samples(a: Seq<i64>, b: Seq<i64>)
    requires
        same_samples(a, b),
    ensures
        ascending(a) == ascending(b),
{
    lemma_sample_leq_total();
    a.lemma_sort_by_ensures(sample_leq());
    b.lemma_sort_by_ensures(sample_leq());
    lemma_sorted_unique(ascending(a), ascending(b), sample_leq());
}

/// Exchanging two positions keeps the samples.
pub proof fn lemma_exchanged_same_samples(s: Seq<i64>, i: int, j: int)
    requires
        0 <= i < s.len(),
        0 <= j < s.len(),
    ensures
        same_samples(exchanged(s, i, j), s),
        exchanged(s, i, j).len() == s.len(),
{
    let m = s.to_multiset();
    let s1 = s.update(i, s[j]);
    to_multiset_update(s, i, s[j]);
    to_multiset_update(s1, j, s[i]);
    s.to_multiset_ensures();
    assert(s.contains(s[i]));
    assert(s.contains(s[j]));
    assert(s1[j] == s[j]);
    assert(m.insert(s[j]).remove(s[i]).insert(s[i]).remove(s[j]) =~= m);
}

/// A settled position of any rearrangement of `s` holds the order statistic
/// of that rank.
pub proof fn lemma_settled_is_order_statistic(s: Seq<i64>, t: Seq<i64>, k: int)
    requires
        same_samples(t, s),
        settled(t, k),
    ensures
        order_statistic(s, k) == t[k],
{
    let leq = sample_leq();
    lemma_sample_leq_total();
    let n = t.len() as int;
    let l = t.subrange(0, k);
    let r = t.subrange(k + 1, n);
    let ls = ascending(l);
    let rs = ascending(r);
    lemma_ascending(l);
    lemma_ascending(r);
    let mid = seq![t[k]];
    let u = ls + mid + rs;
    assert(t =~= l + mid + r);
    assert(u.to_multiset() == t.to_multiset()) by {
        lemma_multiset_commutative(ls + mid, rs);
        lemma_multiset_commutative(ls, mid);
        lemma_multiset_commutative(l + mid, r);
        lemma_multiset_commutative(l, mid);
    }
    assert forall|i: int| 0 <= i < k implies #[trigger] ls[i] <= t[k] by {
        assert(l.contains(ls[i]));
        let p = choose|p: int| 0 <= p < l.len() && l[p] == ls[i];
        assert(t[p] == l[p]);
    }
    assert forall|j: int| 0 <= j < rs.len() implies t[k] <= #[trigger] rs[j] by {
        assert(r.contains(rs[j]));
        let p = choose|p: int| 0 <= p < r.len() && r[p] == rs[j];
        assert(t[k + 1 + p] == r[p]);
    }
    assert(sorted_by(u, leq)) by {
        assert forall|i: int, j: int| 0 <= i < j < u.len() implies #[trigger] leq(u[i], u[j]) by {
            if j < k {
                assert(u[i] == ls[i] && u[j] == ls[j]);
            } else if j == k {
                assert(u[i] == ls[i] && u[j] == t[k]);
            } else if i < k {
                assert(u[i] == ls[i] && u[j] == rs[j - k - 1]);
            } else if i == k {
                assert(u[i] == t[k] && u[j] == rs[j - k - 1]);
            } else {
                assert(u[i] == rs[i - k - 1] && u[j] == rs[j - k - 1]);
            }
        }
    }
    s.lemma_sort_by_ensures(leq);
    lemma_sorted_unique(u, ascending(s), leq);
    assert(u[k] == t[k]);
}

/// A sample that nothing in `s` falls below is its lowest order statistic.
pub proof fn lemma_least_is_first(s: Seq<i64>, p: int)
    requires
        0 <= p < s.len(),
        forall|i: int| 0 <= i < s.len() ==> s[p] <= #[trigger] s[i],
    ensures
        order_statistic(s, 0) == s[p],
{
    let t = exchanged(s, 0, p);
    lemma_exchanged_same_samples(s, 0, p);
    assert(settled(t, 0));
    lemma_settled_is_order_statistic(s, t, 0);
}

/// A sample that nothing in `s` exceeds is its highest order statistic.
pub proof fn lemma_greatest_is_last(s: Seq<i64>, p: int)
    requires
        0 <= p < s.len(),
        forall|i: int| 0 <= i < s.len() ==> #[trigger] s[i] <= s[p],
    ensures
        order_statistic(s, s.len() - 1) == s[p],
{
    let last = s.len() - 1;
    let t = exchanged(s, last, p);
    lemma_exchanged_same_samples(s, last, p);
    assert(settled(t, last));
    lemma_settled_is_order_statistic(s, t, last);
}

} // verus!
