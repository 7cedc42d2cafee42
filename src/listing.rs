//! Vectors of key/value pairs that list a finite map.
use vstd::prelude::*;

verus! {

/// `s` lists `m`: each pair of `s` is an entry of `m`, each key of `m`
/// stands in `s`, and no key stands in `s` twice. The order is free.
pub open spec fn lists_exactly<K, V>(s: Seq<(K, V)>, m: Map<K, V>) -> bool {
    &&& forall|i: int| 0 <= i < s.len() ==> m.contains_key(#[trigger] s[i].0) && m[s[i].0] == s[i].1
    &&& forall|k: K| #[trigger] m.contains_key(k) ==> exists|i: int| 0 <= i < s.len() && s[i].0 == k
    &&& forall|i: int, j: int| 0 <= i < j < s.len() ==> #[trigger] s[i].0 != #[trigger] s[j].0
}

/// A listing has as many pairs as the map has keys, so the map is finite.
pub proof fn lemma_listing_len<K, V>(s: Seq<(K, V)>, m: Map<K, V>)
    requires
        lists_exactly(s, m),
    ensures
        m.dom().finite(),
        m.len() == s.len(),
{
    let f = s.map_values(|p: (K, V)| p.0);
    assert(f.no_duplicates()) by {
        assert forall|i: int, j: int| 0 <= i < f.len() && 0 <= j < f.len() && i != j implies f[i]
            != f[j] by {
            if i < j {
                assert(s[i].0 != s[j].0);
            } else {
                assert(s[j].0 != s[i].0);
            }
        }
    }
    f.unique_seq_to_set();
    vstd::seq_lib::seq_to_set_is_finite(f);
    assert(f.to_set() =~= m.dom()) by {
        assert forall|k: K| m.dom().contains(k) implies f.to_set().contains(k) by {
            let i = choose|i: int| 0 <= i < s.len() && s[i].0 == k;
            assert(f[i] == k);
        }
        assert forall|k: K| f.to_set().contains(k) implies m.dom().contains(k) by {
            let i = choose|i: int| 0 <= i < f.len() && f[i] == k;
            assert(s[i].0 == k);
        }
    }
}

} // verus!
