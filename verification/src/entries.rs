//! Sequences of owned (hash, key, value) entries, as produced when a bucket
//! or the whole table is drained, and their interpretation as maps.

use vstd::prelude::*;

verus! {

/// The key-indexed map described by a sequence of (hash, key, value)
/// entries; a later entry with the same key wins.
pub open spec fn triples_kmap<V>(s: Seq<(u64, u64, V)>) -> Map<u64, (u64, V)>
    decreases s.len(),
{
    if s.len() == 0 {
        Map::empty()
    } else {
        triples_kmap(s.drop_last()).insert(s.last().1, (s.last().0, s.last().2))
    }
}

/// The (hash, key)-indexed map described by a sequence of entries.
pub open spec fn triples_pmap<V>(s: Seq<(u64, u64, V)>) -> Map<(u64, u64), V>
    decreases s.len(),
{
    if s.len() == 0 {
        Map::empty()
    } else {
        triples_pmap(s.drop_last()).insert((s.last().0, s.last().1), s.last().2)
    }
}

/// No two entries of the sequence carry the same key.
pub open spec fn keys_distinct<V>(s: Seq<(u64, u64, V)>) -> bool {
    forall|i: int, j: int| 0 <= i < j < s.len() ==> s[i].1 != s[j].1
}

/// No two entries of the sequence carry the same (hash, key) pair.
pub open spec fn pairs_distinct<V>(s: Seq<(u64, u64, V)>) -> bool {
    forall|i: int, j: int|
        0 <= i < j < s.len() ==> (s[i].0, s[i].1) != (s[j].0, s[j].1)
}

/// Every key in the map of a sequence is the key of some entry.
pub proof fn lemma_triples_kmap_dom<V>(s: Seq<(u64, u64, V)>)
    ensures
        forall|k: u64|
            triples_kmap(s).dom().contains(k) <==> exists|i: int|
                0 <= i < s.len() && #[trigger] s[i].1 == k,
    decreases s.len(),
{
    if s.len() > 0 {
        lemma_triples_kmap_dom(s.drop_last());
        let sd = s.drop_last();
        assert forall|k: u64| triples_kmap(s).dom().contains(k) implies exists|i: int|
            0 <= i < s.len() && #[trigger] s[i].1 == k by {
            if k == s.last().1 {
                assert(s[s.len() - 1].1 == k);
            } else {
                assert(triples_kmap(sd).dom().contains(k));
                let i = choose|i: int| 0 <= i < sd.len() && #[trigger] sd[i].1 == k;
                assert(sd[i] == s[i]);
                assert(s[i].1 == k);
            }
        }
        assert forall|k: u64| (exists|i: int| 0 <= i < s.len() && #[trigger] s[i].1 == k)
            implies triples_kmap(s).dom().contains(k) by {
            let i = choose|i: int| 0 <= i < s.len() && #[trigger] s[i].1 == k;
            if i < s.len() - 1 {
                assert(sd[i] == s[i]);
                assert(sd[i].1 == k);
                assert(triples_kmap(sd).dom().contains(k));
            } else {
                assert(k == s.last().1);
            }
        }
    }
}

/// Every pair in the pair map of a sequence is the pair of some entry.
pub proof fn lemma_triples_pmap_dom<V>(s: Seq<(u64, u64, V)>)
    ensures
        forall|p: (u64, u64)|
            triples_pmap(s).dom().contains(p) <==> exists|i: int|
                0 <= i < s.len() && (#[trigger] s[i].0, s[i].1) == p,
    decreases s.len(),
{
    if s.len() > 0 {
        lemma_triples_pmap_dom(s.drop_last());
        let sd = s.drop_last();
        assert forall|p: (u64, u64)| triples_pmap(s).dom().contains(p) implies exists|i: int|
            0 <= i < s.len() && (#[trigger] s[i].0, s[i].1) == p by {
            if p == (s.last().0, s.last().1) {
                assert((s[s.len() - 1].0, s[s.len() - 1].1) == p);
            } else {
                assert(triples_pmap(sd).dom().contains(p));
                let i = choose|i: int|
                    0 <= i < sd.len() && (#[trigger] sd[i].0, sd[i].1) == p;
                assert(sd[i] == s[i]);
                assert((s[i].0, s[i].1) == p);
            }
        }
        assert forall|p: (u64, u64)|
            (exists|i: int| 0 <= i < s.len() && (#[trigger] s[i].0, s[i].1) == p)
            implies triples_pmap(s).dom().contains(p) by {
            let i = choose|i: int| 0 <= i < s.len() && (#[trigger] s[i].0, s[i].1) == p;
            if i < s.len() - 1 {
                assert(sd[i] == s[i]);
                assert((sd[i].0, sd[i].1) == p);
                assert(triples_pmap(sd).dom().contains(p));
            } else {
                assert(p == (s.last().0, s.last().1));
            }
        }
    }
}

} // verus!
