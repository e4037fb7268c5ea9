//! Facts about sequences that several modules share.

use vstd::prelude::*;

verus! {

/// Inserting an item into a sequence adds it to the sequence's items.
pub proof fn lemma_insert_multiset<A>(s: Seq<A>, i: int, e: A)
    requires
        0 <= i <= s.len(),
    ensures
        s.insert(i, e).to_multiset() == s.to_multiset().insert(e),
{
    broadcast use vstd::seq_lib::group_to_multiset_ensures;
    broadcast use vstd::multiset::group_multiset_axioms;

    let t = s.insert(i, e);
    assert(t.remove(i) =~= s);
    assert(t[i] == e);
    assert(t.contains(e));
    assert(s.to_multiset() == t.to_multiset().remove(e));
    assert(t.to_multiset() =~= s.to_multiset().insert(e));
}

} // verus!
