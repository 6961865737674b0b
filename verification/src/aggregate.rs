//! Fan-in aggregation of the ports reported by the workers.
//!
//! The convergence channel delivers open ports in no particular order;
//! the aggregator imposes the order afterwards, sorting the collected
//! ports ascending before exposing them as the result set.

use vstd::prelude::*;
use vstd::seq_lib::group_to_multiset_ensures;

verus! {

/// The ordered sequence of open ports a scan yields: materialized only
/// after every worker has terminated, sorted ascending before it is
/// exposed to the caller.
pub type ResultSet = Vec<u16>;

/// Ascending order.
pub open spec fn sorted(s: Seq<u16>) -> bool {
    forall|i: int, j: int| 0 <= i < j < s.len() ==> s[i] <= s[j]
}

/// Strictly ascending order: ascending and free of duplicates.
pub open spec fn strictly_sorted(s: Seq<u16>) -> bool {
    forall|i: int, j: int| 0 <= i < j < s.len() ==> s[i] < s[j]
}

/// A sorted sequence without duplicate entries is strictly ascending.
pub proof fn lemma_sorted_no_duplicates_strict(s: Seq<u16>)
    requires
        sorted(s),
        s.no_duplicates(),
    ensures
        strictly_sorted(s),
{
}

/// Two strictly ascending sequences holding the same values are the same
/// sequence: a result set is determined by which ports are in it, so a
/// repeated scan over an unchanged target yields the identical result.
pub proof fn lemma_strictly_sorted_same_values_equal(x: Seq<u16>, y: Seq<u16>)
    requires
        strictly_sorted(x),
        strictly_sorted(y),
        forall|p: u16| x.contains(p) <==> y.contains(p),
    ensures
        x == y,
    decreases x.len(),
{
    if x.len() == 0 {
        if y.len() > 0 {
            assert(y.contains(y[0]));
        }
        assert(x =~= y);
    } else if y.len() == 0 {
        assert(x.contains(x[0]));
        assert(x =~= y);
    } else {
        assert(x.contains(x[0]));
        assert(y.contains(y[0]));
        let i = choose|i: int| 0 <= i < y.len() && y[i] == x[0];
        let j = choose|j: int| 0 <= j < x.len() && x[j] == y[0];
        assert(y[0] <= x[0]) by {
            if i > 0 {
                assert(y[0] < y[i]);
            }
        }
        assert(x[0] <= y[0]) by {
            if j > 0 {
                assert(x[0] < x[j]);
            }
        }
        let xt = x.drop_first();
        let yt = y.drop_first();
        assert forall|a: int, b: int| 0 <= a < b < xt.len() implies xt[a] < xt[b] by {
            assert(xt[a] == x[a + 1]);
            assert(xt[b] == x[b + 1]);
        }
        assert forall|a: int, b: int| 0 <= a < b < yt.len() implies yt[a] < yt[b] by {
            assert(yt[a] == y[a + 1]);
            assert(yt[b] == y[b + 1]);
        }
        assert forall|p: u16| xt.contains(p) implies yt.contains(p) by {
            let a = choose|a: int| 0 <= a < xt.len() && xt[a] == p;
            assert(x[a + 1] == p);
            assert(x.contains(p));
            assert(x[0] < p);
            assert(y.contains(p));
            let b = choose|b: int| 0 <= b < y.len() && y[b] == p;
            assert(b > 0);
            assert(yt[b - 1] == p);
        }
        assert forall|p: u16| yt.contains(p) implies xt.contains(p) by {
            let a = choose|a: int| 0 <= a < yt.len() && yt[a] == p;
            assert(y[a + 1] == p);
            assert(y.contains(p));
            assert(y[0] < p);
            assert(x.contains(p));
            let b = choose|b: int| 0 <= b < x.len() && x[b] == p;
            assert(b > 0);
            assert(xt[b - 1] == p);
        }
        lemma_strictly_sorted_same_values_equal(xt, yt);
        assert forall|a: int| 0 <= a < x.len() implies x[a] == y[a] by {
            if a > 0 {
                assert(x[a] == xt[a - 1]);
                assert(y[a] == yt[a - 1]);
            }
        }
        assert(x =~= y);
    }
}

/// Order the collected ports ascending: the final step of a scan.  The
/// result holds exactly the collected ports; when the collection is free
/// of duplicates — as the disjoint partition of the port space
/// guarantees — the result is strictly ascending.
pub fn aggregate(collected: &Vec<u16>) -> (r: ResultSet)
    ensures
        sorted(r@),
        r@.len() == collected@.len(),
        r@.to_multiset() == collected@.to_multiset(),
        forall|p: u16| r@.contains(p) <==> collected@.contains(p),
        collected@.no_duplicates() ==> r@.no_duplicates() && strictly_sorted(r@),
{
    let mut r: Vec<u16> = Vec::new();
    let mut idx: usize = 0;
    proof {
        assert(r@ =~= Seq::<u16>::empty());
        assert(collected@.subrange(0, 0) =~= Seq::<u16>::empty());
    }
    while idx < collected.len()
        invariant
            idx <= collected@.len(),
            sorted(r@),
            r@.to_multiset() == collected@.subrange(0, idx as int).to_multiset(),
        decreases collected@.len() - idx,
    {
        let x = collected[idx];
        let mut j: usize = 0;
        while j < r.len() && r[j] <= x
            invariant
                j <= r@.len(),
                forall|k: int| 0 <= k < j ==> r@[k] <= x,
            decreases r@.len() - j,
        {
            j = j + 1;
        }
        let ghost old_r: Seq<u16> = r@;
        let ghost ji: int = j as int;
        r.insert(j, x);
        proof {
            broadcast use group_to_multiset_ensures;

            old_r.insert_ensures(ji, x);
            assert forall|a: int, b: int| 0 <= a < b < r@.len() implies r@[a] <= r@[b] by {
                if b < ji {
                    assert(r@[a] == old_r[a]);
                    assert(r@[b] == old_r[b]);
                } else if b == ji {
                    assert(r@[a] == old_r[a]);
                    assert(r@[b] == x);
                } else {
                    assert(r@[b] == old_r[b - 1]);
                    if a < ji {
                        assert(r@[a] == old_r[a]);
                        assert(old_r[a] <= old_r[b - 1]);
                    } else if a == ji {
                        assert(r@[a] == x);
                        assert(x < old_r[ji]);
                        assert(old_r[ji] <= old_r[b - 1]);
                    } else {
                        assert(r@[a] == old_r[a - 1]);
                        assert(old_r[a - 1] <= old_r[b - 1]);
                    }
                }
            }
            assert(r@ == old_r.insert(ji, x));
            assert(old_r.insert(ji, x).to_multiset() == old_r.to_multiset().insert(x));
            assert(collected@.subrange(0, idx as int).push(x).to_multiset() == collected@.subrange(
                0,
                idx as int,
            ).to_multiset().insert(x));
            assert(collected@.subrange(0, idx as int + 1) =~= collected@.subrange(
                0,
                idx as int,
            ).push(x));
            assert(r@.to_multiset() =~= collected@.subrange(0, idx as int + 1).to_multiset());
        }
        idx = idx + 1;
    }
    proof {
        broadcast use group_to_multiset_ensures;

        assert(collected@.subrange(0, collected@.len() as int) =~= collected@);
        assert(r@.len() == r@.to_multiset().len());
        assert(collected@.len() == collected@.to_multiset().len());
        assert forall|p: u16| r@.contains(p) <==> collected@.contains(p) by {
            assert(r@.contains(p) <==> r@.to_multiset().count(p) > 0);
            assert(collected@.contains(p) <==> collected@.to_multiset().count(p) > 0);
        }
        if collected@.no_duplicates() {
            collected@.lemma_multiset_has_no_duplicates();
            r@.lemma_multiset_has_no_duplicates_conv();
            lemma_sorted_no_duplicates_strict(r@);
        }
    }
    r
}

} // verus!
