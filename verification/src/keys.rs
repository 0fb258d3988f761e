//! Key listings of integer-keyed hash maps.
use std::collections::HashMap;
use vstd::prelude::*;

verus! {

broadcast use vstd::std_specs::hash::group_hash_axioms;

/// The keys of a map, each once, in the map's iteration order.
pub fn map_keys<V>(m: &HashMap<u32, V>) -> (r: Vec<u32>)
    ensures
        r@.no_duplicates(),
        forall|k: u32| #[trigger] r@.contains(k) <==> m@.contains_key(k),
        r.len() == m@.dom().len(),
{
    let mut r: Vec<u32> = Vec::new();
    for k in it: m.keys()
        invariant
            r@ == it.seq().take(it.index() as int).map_values(|x: &u32| *x),
            it.seq() == vstd::std_specs::iter::IteratorSpec::remaining(&vstd::std_specs::hash::spec_keys_iter(m)),
    {
        r.push(*k);
        proof {
            assert(it.seq().take(it.index() + 1).map_values(|x: &u32| *x) =~= r@);
        }
    }
    proof {
        let s = vstd::std_specs::iter::IteratorSpec::remaining(&vstd::std_specs::hash::spec_keys_iter(m));
        assert(r@ =~= s.map_values(|x: &u32| *x));
        assert(s.unref() =~= r@);
        assert(r@.to_set() == m@.dom());
        assert forall|k: u32| #[trigger] r@.contains(k) <==> m@.contains_key(k) by {
            assert(r@.to_set().contains(k) == r@.contains(k));
        }
        r@.unique_seq_to_set();
    }
    r
}

} // verus!
