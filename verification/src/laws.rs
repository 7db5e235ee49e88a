//! Laws the containers obey, stated over the `Map` view that every
//! container operation is specified against.
//!
//! Each container's `insert`, `get` and `remove` are contracted exactly
//! as `Map::insert`, map lookup and `Map::remove` on its view, so these
//! map-level facts carry over to any sequence of container operations.

use vstd::prelude::*;

verus! {

/// The map described by a sequence of insertions, applied left to right.
pub open spec fn map_of_pairs<A, B>(s: Seq<(A, B)>) -> Map<A, B>
    decreases s.len(),
{
    if s.len() == 0 {
        Map::empty()
    } else {
        map_of_pairs(s.drop_last()).insert(s.last().0, s.last().1)
    }
}

/// Round trip: after a sequence of insertions with pairwise distinct
/// keys, every inserted key is mapped to the value inserted with it.
pub proof fn lemma_distinct_inserts_round_trip<A, B>(s: Seq<(A, B)>, i: int)
    requires
        0 <= i < s.len(),
        forall|p: int, q: int| 0 <= p < q < s.len() ==> s[p].0 != s[q].0,
    ensures
        map_of_pairs(s).contains_key(s[i].0),
        map_of_pairs(s)[s[i].0] == s[i].1,
    decreases s.len(),
{
    if i == s.len() - 1 {
    } else {
        assert(s.drop_last()[i] == s[i]);
        lemma_distinct_inserts_round_trip(s.drop_last(), i);
        assert(s[i].0 != s[s.len() - 1].0);
    }
}

/// Overwrite: inserting under the same key twice leaves the map as if
/// only the second insertion had happened, and a key not previously
/// present grows the map by exactly one entry across the whole sequence,
/// not two.
pub proof fn lemma_overwrite_counts_once<A, B>(m: Map<A, B>, k: A, v1: B, v2: B)
    requires
        m.dom().finite(),
        !m.contains_key(k),
    ensures
        m.insert(k, v1).insert(k, v2) == m.insert(k, v2),
        m.insert(k, v1).insert(k, v2).dom().len() == m.dom().len() + 1,
{
    assert(m.insert(k, v1).insert(k, v2) =~= m.insert(k, v2));
    vstd::set::axiom_set_insert_len(m.dom(), k);
    assert(m.insert(k, v2).dom() =~= m.dom().insert(k));
}

/// Removal: after removing `k` the map no longer contains it, every
/// other binding is untouched, and removing an absent key changes
/// nothing.
pub proof fn lemma_remove_key<A, B>(m: Map<A, B>, k: A)
    ensures
        !m.remove(k).contains_key(k),
        forall|k2: A| k2 != k ==> m.remove(k).contains_key(k2) == m.contains_key(k2),
        forall|k2: A|
            k2 != k && m.contains_key(k2) ==> m.remove(k)[k2] == m[k2],
        !m.contains_key(k) ==> m.remove(k) == m,
{
    if !m.contains_key(k) {
        assert(m.remove(k) =~= m);
    }
}

} // verus!
