//! Columns in another order.

use vstd::prelude::*;

verus! {

/// `order` names each of `count` columns once.
pub open spec fn reorders(order: Seq<int>, count: nat) -> bool {
    &&& order.len() == count
    &&& order.no_duplicates()
    &&& forall|i: int| 0 <= i < count ==> 0 <= #[trigger] order[i] < count
    &&& forall|s: int| 0 <= s < count ==> #[trigger] order.contains(s)
}

/// The columns in another order: `order` names, for each place, the column that
/// comes to stand there.
pub open spec fn reordered<A>(columns: Seq<A>, order: Seq<int>) -> Seq<A> {
    Seq::new(order.len(), |i: int| columns[order[i]])
}

/// Columns that are the same in another order are the same.
pub proof fn lemma_reordered_injective<A>(a: Seq<A>, b: Seq<A>, order: Seq<int>)
    requires
        reorders(order, a.len()),
        a.len() == b.len(),
        reordered(a, order) == reordered(b, order),
    ensures
        a == b,
{
    assert forall|s: int| 0 <= s < a.len() implies a[s] == b[s] by {
        assert(order.contains(s));
        let i = order.index_of(s);
        assert(order[i] == s);
        assert(reordered(a, order)[i] == a[s]);
        assert(reordered(b, order)[i] == b[s]);
    }
    assert(a =~= b);
}

/// Each number is greater than the one before it.
pub open spec fn ascends(numbers: Seq<int>) -> bool {
    forall|i: int, j: int|
        0 <= i < j < numbers.len() ==> #[trigger] numbers[i] < #[trigger] numbers[j]
}

/// There is one way to line up numbers in ascending order.
pub proof fn lemma_ascending_unique(a: Seq<int>, b: Seq<int>)
    requires
        ascends(a),
        ascends(b),
        forall|n: int| #[trigger] a.contains(n) <==> b.contains(n),
    ensures
        a == b,
    decreases a.len(),
{
    if a.len() == 0 {
        if b.len() > 0 {
            assert(b.contains(b[0]));
            assert(a.contains(b[0]));
        }
        assert(a =~= b);
    } else {
        assert(a.contains(a[0]));
        assert(b.len() > 0);
        assert(a.contains(a.last()) && b.contains(b.last()));
        assert(b.contains(a.last()) && a.contains(b.last()));
        let i = b.index_of(a.last());
        let j = a.index_of(b.last());
        assert(b[i] == a[a.len() - 1] && a[j] == b[b.len() - 1]);
        assert(a.last() == b.last());
        let x = a.drop_last();
        let y = b.drop_last();
        assert(ascends(x)) by {
            assert forall|i: int, j: int| 0 <= i < j < x.len() implies #[trigger] x[i]
                < #[trigger] x[j] by {
                assert(a[i] < a[j]);
            }
        }
        assert(ascends(y)) by {
            assert forall|i: int, j: int| 0 <= i < j < y.len() implies #[trigger] y[i]
                < #[trigger] y[j] by {
                assert(b[i] < b[j]);
            }
        }
        assert forall|n: int| #[trigger] x.contains(n) <==> y.contains(n) by {
            if x.contains(n) {
                let k = x.index_of(n);
                assert(a[k] == n && a[k] < a[a.len() - 1]);
                assert(a.contains(n));
                let l = b.index_of(n);
                assert(y[l] == n);
            }
            if y.contains(n) {
                let k = y.index_of(n);
                assert(b[k] == n && b[k] < b[b.len() - 1]);
                assert(b.contains(n));
                assert(a.contains(n));
                let l = a.index_of(n);
                assert(x[l] == n);
            }
        }
        lemma_ascending_unique(x, y);
        assert(a =~= x.push(a.last()));
        assert(b =~= y.push(b.last()));
    }
}

} // verus!
