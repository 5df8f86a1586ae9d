//! Ascending order: a merge sort and the sorted arrangement it produces.

use vstd::prelude::*;

verus! {

/// The elements never decrease from one position to a later one.
pub open spec fn ascending(s: Seq<u64>) -> bool {
    forall|i: int, j: int| 0 <= i < j < s.len() ==> s[i] <= s[j]
}

/// The elements of `s` in ascending order.
pub open spec fn sorted(s: Seq<u64>) -> Seq<u64> {
    s.sort_by(|x: u64, y: u64| x <= y)
}

/// `sorted(s)` is in ascending order and holds every element of `s` as often as `s` does.
pub proof fn law_sorted_is_an_ascending_arrangement(s: Seq<u64>)
    ensures
        ascending(sorted(s)),
        sorted(s).to_multiset() == s.to_multiset(),
        sorted(s).len() == s.len(),
{
    let leq = |x: u64, y: u64| x <= y;
    assert(vstd::relations::total_ordering(leq));
    s.lemma_sort_by_ensures(leq);
    assert forall|i: int, j: int| 0 <= i < j < sorted(s).len() implies sorted(s)[i] <= sorted(
        s,
    )[j] by {
        assert(leq(sorted(s)[i], sorted(s)[j]));
    }
    s.to_multiset_ensures();
    sorted(s).to_multiset_ensures();
}

/// An ascending arrangement of the elements of `s` can only be `sorted(s)`.
pub proof fn law_ascending_arrangement_is_unique(s: Seq<u64>, t: Seq<u64>)
    requires
        ascending(t),
        t.to_multiset() == s.to_multiset(),
    ensures
        t == sorted(s),
{
    let leq = |x: u64, y: u64| x <= y;
    assert(vstd::relations::total_ordering(leq));
    s.lemma_sort_by_ensures(leq);
    assert(vstd::relations::sorted_by(t, leq));
    vstd::seq_lib::lemma_sorted_unique(t, sorted(s), leq);
}

/// Joins two ascending runs into one.
fn merge(a: &Vec<u64>, b: &Vec<u64>) -> (out: Vec<u64>)
    requires
        ascending(a@),
        ascending(b@),
    ensures
        ascending(out@),
        out@.to_multiset() == (a@ + b@).to_multiset(),
{
    let mut out: Vec<u64> = Vec::new();
    let mut i: usize = 0;
    let mut j: usize = 0;
    proof {
        broadcast use vstd::seq_lib::group_to_multiset_ensures;

        assert(out@.to_multiset() =~= a@.take(0).to_multiset().add(b@.take(0).to_multiset()));
    }
    while i < a.len() || j < b.len()
        invariant
            i <= a.len(),
            j <= b.len(),
            ascending(a@),
            ascending(b@),
            ascending(out@),
            out@.to_multiset() == a@.take(i as int).to_multiset().add(
                b@.take(j as int).to_multiset(),
            ),
            forall|k: int, m: int| 0 <= k < out.len() && i <= m < a.len() ==> out[k] <= a[m],
            forall|k: int, m: int| 0 <= k < out.len() && j <= m < b.len() ==> out[k] <= b[m],
        decreases (a.len() - i) + (b.len() - j),
    {
        broadcast use vstd::seq_lib::group_to_multiset_ensures;

        if j == b.len() || (i < a.len() && a[i] <= b[j]) {
            proof {
                assert(a@.take(i + 1) =~= a@.take(i as int).push(a@[i as int]));
                assert(out@.push(a@[i as int]).to_multiset() =~= a@.take(i + 1).to_multiset().add(
                    b@.take(j as int).to_multiset(),
                ));
            }
            out.push(a[i]);
            i += 1;
        } else {
            proof {
                assert(b@.take(j + 1) =~= b@.take(j as int).push(b@[j as int]));
                assert(out@.push(b@[j as int]).to_multiset() =~= a@.take(
                    i as int,
                ).to_multiset().add(b@.take(j + 1).to_multiset()));
            }
            out.push(b[j]);
            j += 1;
        }
    }
    proof {
        assert(a@.take(i as int) =~= a@);
        assert(b@.take(j as int) =~= b@);
        vstd::seq_lib::lemma_multiset_commutative(a@, b@);
    }
    out
}

/// A copy of `vals` in ascending order.
pub fn sort(vals: &[u64]) -> (out: Vec<u64>)
    ensures
        out@ == sorted(vals@),
    decreases vals.len(),
{
    let n: usize = vals.len();
    if n <= 1 {
        let mut out: Vec<u64> = Vec::new();
        if n == 1 {
            out.push(vals[0]);
        }
        proof {
            assert(out@ =~= vals@);
            law_ascending_arrangement_is_unique(vals@, out@);
        }
        return out;
    }
    let mid: usize = n / 2;
    let (left, right) = vals.split_at(mid);
    let a = sort(left);
    let b = sort(right);
    proof {
        law_sorted_is_an_ascending_arrangement(left@);
        law_sorted_is_an_ascending_arrangement(right@);
    }
    let out = merge(&a, &b);
    proof {
        assert(left@ + right@ =~= vals@);
        vstd::seq_lib::lemma_multiset_commutative(left@, right@);
        vstd::seq_lib::lemma_multiset_commutative(a@, b@);
        law_ascending_arrangement_is_unique(vals@, out@);
    }
    out
}

} // verus!
