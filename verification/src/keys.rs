//! Integer keys of std's ordered collections.
use std::collections::BTreeSet;
use vstd::prelude::*;
use vstd::std_specs::cmp::OrdSpec;
use vstd::std_specs::iter::IteratorSpec;

verus! {

broadcast use vstd::std_specs::btree::group_btree_axioms;

/// `u32` keys follow the order that vstd's specifications of ordered collections assume.
pub proof fn lemma_u32_keys_ordered()
    ensures
        vstd::laws_cmp::obeys_cmp::<u32>(),
{
    broadcast use vstd::laws_cmp::group_laws_cmp;

}

/// Numbers in strictly increasing order.
pub open spec fn strictly_increasing(s: Seq<u32>) -> bool {
    forall|i: int, j: int| 0 <= i < j < s.len() ==> s[i] < s[j]
}

/// The members of `set`, in increasing order.
pub fn ascending(set: &BTreeSet<u32>) -> (v: Vec<u32>)
    ensures
        strictly_increasing(v@),
        v@.to_set() == set@,
{
    proof {
        broadcast use vstd::laws_cmp::group_laws_cmp;
    }
    let mut v: Vec<u32> = Vec::new();
    let ghost all = IteratorSpec::remaining(&vstd::std_specs::btree::spec_btree_keys_iter(set));
    for k in it: set.iter()
        invariant
            v@.len() == it.index(),
            it.seq() == all,
            forall|i: int| 0 <= i < it.index() ==> v@[i] == *it.seq()[i],
    {
        v.push(*k);
    }
    proof {
        assert(v@.len() == all.len());
        assert(all.unref().to_set() == set@);
        assert(v@ =~= all.unref());
        assert(vstd::std_specs::btree::increasing_seq(all));
        assert(vstd::laws_cmp::obeys_cmp::<&u32>());
        vstd::std_specs::btree::axiom_increasing_seq_meaning(all);
        assert forall|i: int, j: int| 0 <= i < j < v@.len() implies v@[i] < v@[j] by {
            assert(OrdSpec::cmp_spec(&all[i], &all[j]) is Less);
        }
    }
    v
}

} // verus!
