//! Association lists: the server holds its client and route tables as vectors
//! of key-value pairs with pairwise-distinct keys, and the contracts speak of
//! the finite map such a list denotes.
use vstd::prelude::*;

verus! {

/// The map a list of pairs denotes; a later pair wins over an earlier one.
pub open spec fn pairs_to_map<K, V>(s: Seq<(K, V)>) -> Map<K, V>
    decreases s.len(),
{
    if s.len() == 0 {
        Map::empty()
    } else {
        pairs_to_map(s.drop_last()).insert(s.last().0, s.last().1)
    }
}

/// No two pairs of the list share a key.
pub open spec fn keys_distinct<K, V>(s: Seq<(K, V)>) -> bool {
    forall|i: int, j: int| 0 <= i < j < s.len() ==> s[i].0 != s[j].0
}

/// The denoted map holds a key exactly when some pair carries it.
pub proof fn lemma_pairs_to_map_contains<K, V>(s: Seq<(K, V)>, k: K)
    ensures
        pairs_to_map(s).contains_key(k) <==> exists|i: int| 0 <= i < s.len() && s[i].0 == k,
    decreases s.len(),
{
    if s.len() > 0 {
        lemma_pairs_to_map_contains(s.drop_last(), k);
        if s.last().0 == k {
            assert(s[s.len() - 1].0 == k);
        } else if pairs_to_map(s).contains_key(k) {
            let i = choose|i: int| 0 <= i < s.drop_last().len() && s.drop_last()[i].0 == k;
            assert(s[i].0 == k);
        } else if exists|i: int| 0 <= i < s.len() && s[i].0 == k {
            let i = choose|i: int| 0 <= i < s.len() && s[i].0 == k;
            assert(s.drop_last()[i].0 == k);
        }
    }
}

/// With distinct keys, the pair at any index gives the denoted map's value.
pub proof fn lemma_pairs_to_map_index<K, V>(s: Seq<(K, V)>, i: int)
    requires
        keys_distinct(s),
        0 <= i < s.len(),
    ensures
        pairs_to_map(s).contains_key(s[i].0),
        pairs_to_map(s)[s[i].0] == s[i].1,
    decreases s.len(),
{
    if i < s.len() - 1 {
        assert(keys_distinct(s.drop_last()));
        lemma_pairs_to_map_index(s.drop_last(), i);
        assert(s.drop_last()[i] == s[i]);
        assert(s.last().0 != s[i].0);
    }
}

/// Appending a pair inserts it into the denoted map.
pub proof fn lemma_pairs_to_map_push<K, V>(s: Seq<(K, V)>, k: K, v: V)
    ensures
        pairs_to_map(s.push((k, v))) == pairs_to_map(s).insert(k, v),
{
    assert(s.push((k, v)).drop_last() =~= s);
    assert(s.push((k, v)).last() == (k, v));
}

/// With distinct keys, replacing the value at an index updates the denoted
/// map at that pair's key.
pub proof fn lemma_pairs_to_map_update<K, V>(s: Seq<(K, V)>, i: int, v: V)
    requires
        keys_distinct(s),
        0 <= i < s.len(),
    ensures
        pairs_to_map(s.update(i, (s[i].0, v))) == pairs_to_map(s).insert(s[i].0, v),
    decreases s.len(),
{
    let t = s.update(i, (s[i].0, v));
    if i == s.len() - 1 {
        assert(t.drop_last() =~= s.drop_last());
        assert(t.last() == (s[i].0, v));
    } else {
        assert(keys_distinct(s.drop_last()));
        lemma_pairs_to_map_update(s.drop_last(), i, v);
        assert(t.drop_last() =~= s.drop_last().update(i, (s[i].0, v)));
        assert(t.last() == s.last());
        assert(s.last().0 != s[i].0);
        assert(pairs_to_map(t) =~= pairs_to_map(s).insert(s[i].0, v)) by {
            assert(pairs_to_map(t) == pairs_to_map(s.drop_last()).insert(
                s[i].0,
                v,
            ).insert(s.last().0, s.last().1));
            assert(pairs_to_map(s.drop_last()).insert(s[i].0, v).insert(s.last().0, s.last().1)
                =~= pairs_to_map(s.drop_last()).insert(s.last().0, s.last().1).insert(s[i].0, v));
        }
    }
}

} // verus!
