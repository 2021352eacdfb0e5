//! Sequences of block ids in increasing order.

use crate::BbId;
use std::collections::BTreeMap;
use vstd::prelude::*;
use vstd::std_specs::cmp::OrdSpec;
use vstd::std_specs::iter::IteratorSpec;

verus! {

/// A sequence of ids in strictly increasing order.
pub open spec fn ascending(s: Seq<BbId>) -> bool {
    forall|i: int, j: int| 0 <= i < j < s.len() ==> s[i] < s[j]
}

/// The keys of a map, in increasing order.
pub fn keys_sorted<V>(m: &BTreeMap<BbId, V>) -> (r: Vec<BbId>)
    ensures
        ascending(r@),
        r@.to_set() == m@.dom(),
{
    let mut r: Vec<BbId> = Vec::new();
    for kv in it: m.iter()
        invariant
            r@.len() == it.index(),
            forall|i: int| 0 <= i < r@.len() ==> r@[i] == *it.seq()[i].0,
    {
        r.push(*kv.0);
    }
    proof {
        broadcast use vstd::std_specs::btree::group_btree_axioms;
        assert(vstd::laws_cmp::obeys_cmp::<BbId>());
        let s = m.iter().remaining();
        let keys = s.map_values(|kv: (&BbId, &V)| *kv.0);
        assert(r@ =~= keys);
        assert(vstd::std_specs::btree::increasing_seq(keys));
        assert forall|i: int, j: int| 0 <= i < j < r@.len() implies r@[i] < r@[j] by {
            assert(keys[i].cmp_spec(&keys[j]) is Less);
        }
        assert forall|k: BbId| r@.to_set().contains(k) <==> m@.dom().contains(k) by {
            if r@.to_set().contains(k) {
                let i = choose|i: int| 0 <= i < r@.len() && r@[i] == k;
                assert(m@.contains_key(*s[i].0));
            }
            if m@.dom().contains(k) {
                assert(m@.contains_key(k));
                assert(s.contains((&k, &m@[k])));
                let i = choose|i: int| 0 <= i < s.len() && s[i] == (&k, &m@[k]);
                assert(r@[i] == k);
            }
        }
        assert(r@.to_set() =~= m@.dom());
    }
    r
}

} // verus!
