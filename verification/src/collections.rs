use std::collections::HashMap;
use vstd::prelude::*;
use vstd::std_specs::iter::IteratorSpec;

verus! {

/// The keys of a map, each once.
pub fn map_keys<V>(m: &HashMap<u64, V>) -> (r: Vec<u64>)
    ensures
        r@.to_set() == m@.dom(),
        r@.no_duplicates(),
{
    broadcast use vstd::std_specs::hash::axiom_spec_keys_iter;

    let ghost keys: Seq<u64> = vstd::std_specs::hash::spec_keys_iter(m).remaining().unref();
    let mut r: Vec<u64> = Vec::new();
    for k in it: m.keys()
        invariant
            it.seq().unref() == keys,
            r@ == keys.take(it.index()),
    {
        proof {
            assert(keys[it.index()] == *k);
            assert(keys.take(it.index() + 1) == keys.take(it.index()).push(*k));
        }
        r.push(*k);
    }
    proof {
        assert(keys.take(keys.len() as int) == keys);
    }
    r
}

} // verus!
