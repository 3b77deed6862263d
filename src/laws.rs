//! What holds across the operations, stated over the in-order model.
use vstd::prelude::*;

use crate::tree::{in_order, ordered, Node};

verus! {

broadcast use vstd::seq_lib::group_to_multiset_ensures, vstd::seq_lib::group_seq_properties;

/// The keys of `s` never decrease from one position to a later one.
pub open spec fn sorted(s: Seq<i32>) -> bool {
    forall|i: int, j: int| 0 <= i <= j < s.len() ==> s[i] <= s[j]
}

/// An ordered subtree lists its keys in non-decreasing order.
pub proof fn lemma_ordered_sorted(t: Option<Box<Node>>)
    requires
        ordered(t),
    ensures
        sorted(in_order(t)),
    decreases t,
{
    if let Some(n) = t {
        lemma_ordered_sorted(n.left);
        lemma_ordered_sorted(n.right);
        let l = in_order(n.left);
        let r = in_order(n.right);
        let s = in_order(t);
        assert(s == l + seq![n.value] + r);
        assert forall|i: int, j: int| 0 <= i <= j < s.len() implies s[i] <= s[j] by {
            let k = l.len() as int;
            if i < k {
                assert(l.contains(s[i]));
            }
            if j > k {
                assert(r.contains(s[j]));
            }
        }
    }
}

/// Two non-decreasing sequences with the same keys, counted with
/// multiplicity, are the same sequence: the in-order keys of a well-formed
/// tree are fixed by which keys it holds.
pub proof fn law_sorted_same_keys_equal(a: Seq<i32>, b: Seq<i32>)
    requires
        sorted(a),
        sorted(b),
        a.to_multiset() == b.to_multiset(),
    ensures
        a == b,
    decreases a.len(),
{
    assert(a.len() == a.to_multiset().len());
    assert(b.len() == b.to_multiset().len());
    if a.len() == 0 {
        assert(a =~= b);
    } else {
        assert(a.contains(a[0]));
        assert(b.contains(b[0]));
        assert(a.to_multiset().count(a[0]) > 0);
        assert(b.to_multiset().count(b[0]) > 0);
        let i = choose|i: int| 0 <= i < b.len() && b[i] == a[0];
        let j = choose|j: int| 0 <= j < a.len() && a[j] == b[0];
        assert(b[0] <= b[i]);
        assert(a[0] <= a[j]);
        assert(a[0] == b[0]);
        let a1 = a.drop_first();
        let b1 = b.drop_first();
        assert(a.remove(0) =~= a1);
        assert(b.remove(0) =~= b1);
        assert(a1.to_multiset() == b1.to_multiset());
        assert(sorted(a1)) by {
            assert forall|p: int, q: int| 0 <= p <= q < a1.len() implies a1[p] <= a1[q] by {
                assert(a1[p] == a[p + 1] && a1[q] == a[q + 1]);
            }
        }
        assert(sorted(b1)) by {
            assert forall|p: int, q: int| 0 <= p <= q < b1.len() implies b1[p] <= b1[q] by {
                assert(b1[p] == b[p + 1] && b1[q] == b[q + 1]);
            }
        }
        law_sorted_same_keys_equal(a1, b1);
        assert forall|k: int| 0 < k < a.len() implies a[k] == b[k] by {
            assert(a[k] == a1[k - 1] && b[k] == b1[k - 1]);
        }
        assert(a =~= b);
    }
}

/// After an insertion of `v`, `v` is found, and so is every key found before.
pub proof fn law_inserted_found(before: Seq<i32>, after: Seq<i32>, v: i32)
    requires
        after.to_multiset() == before.to_multiset().insert(v),
    ensures
        after.contains(v),
        forall|x: i32| before.contains(x) ==> #[trigger] after.contains(x),
{
    assert(after.to_multiset().count(v) > 0);
    assert forall|x: i32| before.contains(x) implies #[trigger] after.contains(x) by {
        assert(before.to_multiset().count(x) > 0);
        assert(after.to_multiset().count(x) > 0);
    }
}

/// After a removal of a key `v` that was there, `v` occurs once fewer and
/// every other key as often as before; where `v` was there once, it is no
/// longer found.
pub proof fn law_removed_once(before: Seq<i32>, after: Seq<i32>, v: i32)
    requires
        before.contains(v),
        after.to_multiset() == before.to_multiset().remove(v),
    ensures
        after.to_multiset().count(v) == before.to_multiset().count(v) - 1,
        forall|x: i32|
            x != v ==> #[trigger] after.to_multiset().count(x) == before.to_multiset().count(x),
        before.to_multiset().count(v) == 1 ==> !after.contains(v),
        after.len() == before.len() - 1,
{
    assert(before.to_multiset().count(v) > 0);
    assert(before.to_multiset() =~= after.to_multiset().insert(v));
    assert(before.to_multiset().len() == after.to_multiset().len() + 1);
    assert(before.len() == before.to_multiset().len());
    assert(after.len() == after.to_multiset().len());
}

} // verus!
