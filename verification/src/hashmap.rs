//! The table: an array of bucket slots, each Empty, a chained list, or a
//! balanced search tree, plus a hash seed and a running entry count. A
//! key's slot is its hash modulo the capacity, which is always a power of
//! two. A chain is promoted to a tree once it outgrows the promotion
//! threshold; the table doubles its capacity and rehashes every entry once
//! the load factor reaches three quarters.

use crate::avl_tree::AvlTree;
use crate::entries::keys_distinct;
use crate::entries::triples_kmap;
use crate::entries::triples_pmap;
use crate::entries::pairs_distinct;
use crate::hash::hash_key;
use crate::hash::random_seed;
use crate::hash::spec_hash;
use crate::linked_list::LinkedList;
use vstd::prelude::*;

verus! {

broadcast use vstd::set::group_set_axioms, vstd::map_lib::lemma_union_dom;

/// A chain longer than this is rebuilt as a tree.
pub const PROMOTION_THRESHOLD: usize = 8;

/// The capacity used by the constructors that are not given one.
pub const DEFAULT_CAPACITY: usize = 16;

/// One table slot: empty, a chained bucket, or a tree bucket.
#[derive(Debug)]
enum Entry<V> {
    ListEntry(LinkedList<V>),
    TreeEntry(AvlTree<V>),
    Empty,
}

/// A hash table from u64 keys to values, with chained buckets that become
/// balanced search trees under heavy collision.
#[derive(Debug)]
pub struct HashMap<V> {
    table: Vec<Entry<V>>,
    seed: u64,
    len: usize,
}

/// Whether `n` is a power of two.
pub open spec fn is_pow2(n: nat) -> bool
    decreases n,
{
    if n == 0 {
        false
    } else if n == 1 {
        true
    } else {
        n % 2 == 0 && is_pow2(n / 2)
    }
}

/// The key-indexed reading of a tree bucket: key `k` is present when the
/// tree holds it under its hash, and maps to that hash and value.
spec fn tree_kmap<V>(m: Map<(u64, u64), V>, seed: u64) -> Map<u64, (u64, V)> {
    Map::new(
        |k: u64| m.dom().contains((spec_hash(seed, k), k)),
        |k: u64| (spec_hash(seed, k), m[(spec_hash(seed, k), k)]),
    )
}

/// The key-indexed contents of one slot.
spec fn slot_kmap<V>(e: Entry<V>, seed: u64) -> Map<u64, (u64, V)> {
    match e {
        Entry::Empty => Map::empty(),
        Entry::ListEntry(l) => l@,
        Entry::TreeEntry(t) => tree_kmap(t@, seed),
    }
}

/// Every entry of the slot carries the hash of its key, and that hash
/// selects this slot.
spec fn slot_wf<V>(e: Entry<V>, seed: u64, i: int, cap: nat) -> bool {
    match e {
        Entry::Empty => true,
        Entry::ListEntry(l) => l.well_formed() && 1 <= l.spec_len() <= PROMOTION_THRESHOLD
            && forall|k: u64|
            #[trigger] l@.dom().contains(k) ==> l@[k].0 == spec_hash(seed, k) && spec_hash(
                seed,
                k,
            ) as nat % cap == i,
        Entry::TreeEntry(t) => t.well_formed() && (exists|p: (u64, u64)|
            #[trigger] t@.dom().contains(p)) && forall|p: (u64, u64)|
            #[trigger] t@.dom().contains(p) ==> p.0 == spec_hash(seed, p.1) && p.0 as nat % cap
                == i,
    }
}

/// A power of two below another power of two is at most half of it.
proof fn lemma_pow2_gap(a: nat, b: nat)
    requires
        is_pow2(a),
        is_pow2(b),
        a < b,
    ensures
        2 * a <= b,
    decreases b,
{
    if a == b / 2 {
    } else if a < b / 2 {
        lemma_pow2_gap(a, b / 2);
    } else {
        lemma_pow2_gap(b / 2, a);
        assert(false);
    }
}

/// The keys that occur in a set of (hash, key) pairs.
spec fn keys_of(s: Set<(u64, u64)>) -> Set<u64> {
    Set::new(|k: u64| exists|h: u64| s.contains((h, k)))
}

/// A set of pairs whose hashes are determined by their keys has exactly as
/// many elements as it has keys.
proof fn lemma_keys_of_card(s: Set<(u64, u64)>, seed: u64)
    requires
        s.finite(),
        forall|p: (u64, u64)| #[trigger] s.contains(p) ==> p.0 == spec_hash(seed, p.1),
    ensures
        keys_of(s).finite(),
        keys_of(s).len() == s.len(),
    decreases s.len(),
{
    if s.len() == 0 {
        if exists|p: (u64, u64)| s.contains(p) {
            let p = choose|p: (u64, u64)| s.contains(p);
            vstd::set::axiom_set_remove_len(s, p);
        }
        assert(keys_of(s) =~= Set::<u64>::empty());
    } else {
        if !(exists|p: (u64, u64)| s.contains(p)) {
            assert(s =~= Set::<(u64, u64)>::empty());
        }
        let p = s.choose();
        assert(s.contains(p));
        let s2 = s.remove(p);
        vstd::set::axiom_set_remove_len(s, p);
        lemma_keys_of_card(s2, seed);
        assert forall|k: u64| #[trigger] keys_of(s).contains(k) implies keys_of(s2).insert(
            p.1,
        ).contains(k) by {
            if k != p.1 {
                let h = choose|h: u64| s.contains((h, k));
                assert(s2.contains((h, k)));
            }
        }
        assert forall|k: u64| #[trigger] keys_of(s2).insert(p.1).contains(k)
            implies keys_of(s).contains(k) by {
            if k == p.1 {
                assert(p == (p.0, p.1));
                assert(s.contains((p.0, p.1)));
            } else {
                let h = choose|h: u64| s2.contains((h, k));
                assert(s.contains((h, k)));
            }
        }
        assert(keys_of(s) =~= keys_of(s2).insert(p.1));
        if keys_of(s2).contains(p.1) {
            let h = choose|h: u64| s2.contains((h, p.1));
            assert(s.contains((h, p.1)));
            assert(h == spec_hash(seed, p.1));
            assert(p == (p.0, p.1));
            assert((h, p.1) == p);
        }
        vstd::set::axiom_set_insert_len(keys_of(s2), p.1);
    }
}

/// The map described by a sequence of (key, value) pairs; a later pair
/// with the same key wins.
pub open spec fn kvs_map<V>(s: Seq<(u64, V)>) -> Map<u64, V>
    decreases s.len(),
{
    if s.len() == 0 {
        Map::empty()
    } else {
        kvs_map(s.drop_last()).insert(s.last().0, s.last().1)
    }
}

/// No two pairs of the sequence carry the same key.
pub open spec fn kvs_distinct<V>(s: Seq<(u64, V)>) -> bool {
    forall|i: int, j: int| 0 <= i < j < s.len() ==> s[i].0 != s[j].0
}

/// Every key in the map of a pair sequence is the key of some pair.
proof fn lemma_kvs_dom<V>(s: Seq<(u64, V)>)
    ensures
        forall|k: u64|
            kvs_map(s).dom().contains(k) <==> exists|i: int|
                0 <= i < s.len() && #[trigger] s[i].0 == k,
    decreases s.len(),
{
    if s.len() > 0 {
        lemma_kvs_dom(s.drop_last());
        let sd = s.drop_last();
        assert forall|k: u64| kvs_map(s).dom().contains(k) implies exists|i: int|
            0 <= i < s.len() && #[trigger] s[i].0 == k by {
            if k == s.last().0 {
                assert(s[s.len() - 1].0 == k);
            } else {
                assert(kvs_map(sd).dom().contains(k));
                let i = choose|i: int| 0 <= i < sd.len() && #[trigger] sd[i].0 == k;
                assert(sd[i] == s[i]);
                assert(s[i].0 == k);
            }
        }
        assert forall|k: u64| (exists|i: int| 0 <= i < s.len() && #[trigger] s[i].0 == k)
            implies kvs_map(s).dom().contains(k) by {
            let i = choose|i: int| 0 <= i < s.len() && #[trigger] s[i].0 == k;
            if i < s.len() - 1 {
                assert(sd[i] == s[i]);
                assert(sd[i].0 == k);
                assert(kvs_map(sd).dom().contains(k));
            } else {
                assert(k == s.last().0);
            }
        }
    }
}

/// A pair sequence with pairwise-distinct keys describes a map with
/// exactly one key per pair.
proof fn lemma_kvs_card<V>(s: Seq<(u64, V)>)
    requires
        kvs_distinct(s),
    ensures
        kvs_map(s).dom().finite(),
        kvs_map(s).dom().len() == s.len(),
    decreases s.len(),
{
    if s.len() == 0 {
        assert(kvs_map(s).dom() =~= Set::<u64>::empty());
    } else {
        let sd = s.drop_last();
        lemma_kvs_card(sd);
        lemma_kvs_dom(sd);
        if kvs_map(sd).dom().contains(s.last().0) {
            let i = choose|i: int| 0 <= i < sd.len() && #[trigger] sd[i].0 == s.last().0;
            assert(s[i].0 == s[s.len() - 1].0);
        }
        assert(!kvs_map(sd).dom().contains(s.last().0));
        assert(kvs_map(s).dom() =~= kvs_map(sd).dom().insert(s.last().0));
        vstd::set::axiom_set_insert_len(kvs_map(sd).dom(), s.last().0);
    }
}

/// For any sequence of insertions, the table ends up holding exactly the
/// distinct keys inserted: the map built from the pairs has their key set
/// as its domain, so `len()` reports the number of distinct keys.
pub proof fn lemma_inserted_keys<V>(s: Seq<(u64, V)>)
    ensures
        kvs_map(s).dom() == Set::new(
            |k: u64| exists|i: int| 0 <= i < s.len() && #[trigger] s[i].0 == k,
        ),
{
    lemma_kvs_dom(s);
    assert(kvs_map(s).dom() =~= Set::new(
        |k: u64| exists|i: int| 0 <= i < s.len() && #[trigger] s[i].0 == k,
    ));
}

/// Inserting a key and then looking it up yields the inserted value; a
/// second insertion of the same key finds the first value in place (so
/// `insert` returns it) and lookups then yield the second value.
pub proof fn lemma_insert_then_get<V>(m: Map<u64, V>, k: u64, v: V, v2: V)
    ensures
        m.insert(k, v).dom().contains(k),
        m.insert(k, v)[k] == v,
        m.insert(k, v).insert(k, v2).dom().contains(k),
        m.insert(k, v).insert(k, v2)[k] == v2,
{
}

/// Removing an inserted key finds its stored value in place (so `remove`
/// returns it) and leaves the key absent; removing an absent key leaves
/// the table, and so its count, unchanged.
pub proof fn lemma_remove_then_get<V>(m: Map<u64, V>, k: u64, v: V)
    ensures
        m.insert(k, v)[k] == v,
        !m.insert(k, v).remove(k).dom().contains(k),
        !m.dom().contains(k) ==> m.remove(k) == m,
{
    if !m.dom().contains(k) {
        assert(m.remove(k) =~= m);
    }
}

/// The value map read off a key-indexed bucket map, dropping the cached
/// hashes.
spec fn kview<V>(m: Map<u64, (u64, V)>) -> Map<u64, V> {
    Map::new(|k: u64| m.dom().contains(k), |k: u64| m[k].1)
}

/// Entries drained from a tree bucket, read key-first: their pairwise
/// distinct (hash, key) pairs have hashes determined by the keys, so the
/// keys are pairwise distinct too and the key map matches the tree's.
proof fn lemma_tree_entries<V>(es: Seq<(u64, u64, V)>, m: Map<(u64, u64), V>, seed: u64)
    requires
        triples_pmap(es) == m,
        pairs_distinct(es),
        forall|i: int|
            0 <= i < es.len() ==> m.dom().contains((#[trigger] es[i].0, es[i].1)),
        forall|p: (u64, u64)| #[trigger] m.dom().contains(p) ==> p.0 == spec_hash(seed, p.1),
    ensures
        keys_distinct(es),
        triples_kmap(es) == tree_kmap(m, seed),
    decreases es.len(),
{
    crate::entries::lemma_triples_pmap_dom(es);
    if es.len() == 0 {
        assert(triples_kmap(es) =~= tree_kmap(m, seed));
    } else {
        let e = es.last();
        let pe = (e.0, e.1);
        let sd = es.drop_last();
        let m2 = m.remove(pe);
        crate::entries::lemma_triples_pmap_dom(sd);
        if triples_pmap(sd).dom().contains(pe) {
            let i = choose|i: int| 0 <= i < sd.len() && (#[trigger] sd[i].0, sd[i].1) == pe;
            assert(sd[i] == es[i]);
            assert((es[i].0, es[i].1) == (es[es.len() - 1].0, es[es.len() - 1].1));
        }
        assert(!triples_pmap(sd).dom().contains(pe));
        assert(triples_pmap(sd) =~= m2);
        assert forall|i: int| 0 <= i < sd.len() implies m2.dom().contains(
            (#[trigger] sd[i].0, sd[i].1),
        ) by {
            assert(sd[i] == es[i]);
            assert(m.dom().contains((es[i].0, es[i].1)));
            assert((es[i].0, es[i].1) != pe);
        }
        lemma_tree_entries(sd, m2, seed);
        assert(m.dom().contains(pe));
        assert(e.0 == spec_hash(seed, e.1));
        assert forall|i: int| 0 <= i < sd.len() implies sd[i].1 != e.1 by {
            if sd[i].1 == e.1 {
                assert(m.dom().contains((es[i].0, es[i].1)));
                assert(es[i].0 == spec_hash(seed, es[i].1));
                assert((es[i].0, es[i].1) == pe);
            }
        }
        assert(keys_distinct(es));
        assert(m[pe] == e.2);
        assert forall|k: u64| true implies #[trigger] triples_kmap(es).dom().contains(k)
            == tree_kmap(m, seed).dom().contains(k) && (triples_kmap(es).dom().contains(k)
            ==> triples_kmap(es)[k] == tree_kmap(m, seed)[k]) by {
            if k == e.1 {
                assert(triples_kmap(es)[k] == (e.0, e.2));
                assert(m.dom().contains((spec_hash(seed, k), k)));
            } else {
                assert(triples_kmap(es).dom().contains(k) == triples_kmap(sd).dom().contains(k));
                assert((spec_hash(seed, k), k) != pe);
                assert(tree_kmap(m2, seed).dom().contains(k) == tree_kmap(m, seed).dom().contains(
                    k,
                ));
            }
        }
        assert(triples_kmap(es) =~= tree_kmap(m, seed));
    }
}

/// The (hash, key)-indexed reading of a chain's contents.
spec fn pairs_of<V>(m: Map<u64, (u64, V)>) -> Map<(u64, u64), V> {
    Map::new(
        |p: (u64, u64)| m.dom().contains(p.1) && m[p.1].0 == p.0,
        |p: (u64, u64)| m[p.1].1,
    )
}

/// Rebuilds a chain as a balanced tree holding the same entries under
/// their cached hashes.
fn promote<V>(l: LinkedList<V>) -> (t: AvlTree<V>)
    requires
        l.well_formed(),
    ensures
        t.well_formed(),
        t@ == pairs_of(l@),
{
    let ghost lm = l@;
    let mut es = l.into_entries();
    let ghost total = es@.len();
    proof {
        assert(total == es.len());
    }
    let mut t = AvlTree::new();
    proof {
        assert(pairs_of(triples_kmap(es@)).union_prefer_right(t@) =~= pairs_of(lm));
        assert(t@.dom() =~= Set::<(u64, u64)>::empty());
    }
    while es.len() > 0
        invariant
            t.well_formed(),
            keys_distinct(es@),
            pairs_of(triples_kmap(es@)).union_prefer_right(t@) == pairs_of(lm),
            forall|p: (u64, u64)|
                #[trigger] t@.dom().contains(p) ==> !triples_kmap(es@).dom().contains(p.1),
            t@.dom().finite(),
            t@.dom().len() + es@.len() <= total,
            total <= usize::MAX,
        decreases es@.len(),
    {
        let ghost before = es@;
        let e = es.pop().unwrap();
        proof {
            assert(before.drop_last() =~= es@);
            assert(triples_kmap(before) == triples_kmap(es@).insert(e.1, (e.0, e.2)));
            assert(triples_kmap(before).dom().contains(e.1));
            crate::entries::lemma_triples_kmap_dom(es@);
            if triples_kmap(es@).dom().contains(e.1) {
                let i = choose|i: int| 0 <= i < es@.len() && #[trigger] es@[i].1 == e.1;
                assert(before[i].1 == before[before.len() - 1].1);
            }
            assert(!triples_kmap(es@).dom().contains(e.1));
            if t@.dom().contains((e.0, e.1)) {
                assert(!triples_kmap(before).dom().contains(e.1));
            }
            assert(!t@.dom().contains((e.0, e.1)));
        }
        let ghost t_pre = t@;
        t.insert(e.0, e.1, e.2);
        proof {
            assert(pairs_of(triples_kmap(before)) =~= pairs_of(triples_kmap(es@)).insert(
                (e.0, e.1),
                e.2,
            ));
            assert(pairs_of(triples_kmap(es@)).union_prefer_right(t@) =~= pairs_of(
                triples_kmap(before),
            ).union_prefer_right(t_pre));
            assert forall|p: (u64, u64)| #[trigger] t@.dom().contains(p)
                implies !triples_kmap(es@).dom().contains(p.1) by {
                if p != (e.0, e.1) {
                    assert(t_pre.dom().contains(p));
                    assert(!triples_kmap(before).dom().contains(p.1));
                }
            }
        }
    }
    proof {
        assert(triples_kmap(es@) =~= Map::<u64, (u64, V)>::empty());
        assert(pairs_of(triples_kmap(es@)).union_prefer_right(t@) =~= t@);
    }
    t
}

impl<V> View for HashMap<V> {
    type V = Map<u64, V>;

    closed spec fn view(&self) -> Map<u64, V> {
        Map::new(
            |k: u64| self.capacity() > 0 && self.slot_map(self.key_slot(k)).dom().contains(k),
            |k: u64| self.slot_map(self.key_slot(k))[k].1,
        )
    }
}

impl<V> HashMap<V> {
    /// How many slots the table has.
    pub closed spec fn capacity(self) -> nat {
        self.table@.len()
    }

    /// The table's hash seed.
    pub closed spec fn seed(self) -> u64 {
        self.seed
    }

    spec fn slot_map(self, i: int) -> Map<u64, (u64, V)> {
        slot_kmap(self.table@[i], self.seed)
    }

    /// The slot that the key hashes to: its hash under the table's seed,
    /// modulo the capacity.
    pub open spec fn key_slot(self, k: u64) -> int {
        (spec_hash(self.seed(), k) as nat % self.capacity()) as int
    }

    /// The keys the table holds in the given slot.
    pub open spec fn slot_keys(self, i: int) -> Set<u64> {
        Set::new(|k: u64| self@.dom().contains(k) && self.key_slot(k) == i)
    }

    /// The slots are sound: capacity is a power of two, and every entry
    /// sits in the slot its cached, correct hash selects.
    spec fn table_wf(self) -> bool {
        &&& self.table@.len() >= 1
        &&& is_pow2(self.table@.len())
        &&& forall|i: int|
            0 <= i < self.table@.len() ==> slot_wf(
                #[trigger] self.table@[i],
                self.seed,
                i,
                self.table@.len(),
            )
    }

    /// The table is sound and its count equals the number of keys held.
    pub closed spec fn well_formed(self) -> bool {
        &&& self.table_wf()
        &&& self@.dom().finite()
        &&& self.len == self@.dom().len()
    }

    /// The table holds finitely many entries, so counting over its key
    /// set is meaningful.
    pub proof fn lemma_view_finite(self)
        requires
            self.well_formed(),
        ensures
            self@.dom().finite(),
    {
    }

    /// Each slot holds exactly the keys that hash to it.
    proof fn lemma_slot_keys_eq(self)
        requires
            self.table_wf(),
        ensures
            forall|i: int|
                0 <= i < self.capacity() ==> #[trigger] self.slot_keys(i) == self.slot_map(
                    i,
                ).dom(),
    {
        assert forall|i: int| 0 <= i < self.capacity() implies #[trigger] self.slot_keys(i)
            == self.slot_map(i).dom() by {
            assert(slot_wf(self.table@[i], self.seed, i, self.capacity()));
            assert forall|k: u64| self.slot_map(i).dom().contains(k) implies self@.dom().contains(
                k,
            ) && self.key_slot(k) == i by {
                match self.table@[i] {
                    Entry::Empty => {},
                    Entry::ListEntry(l) => {
                        assert(l@.dom().contains(k));
                    },
                    Entry::TreeEntry(t) => {
                        assert(t@.dom().contains((spec_hash(self.seed, k), k)));
                    },
                }
            }
            assert(self.slot_keys(i) =~= self.slot_map(i).dom());
        }
    }

    /// A slot is Empty exactly when the table holds no key that hashes to
    /// it: an emptied bucket's slot is reset and its storage reclaimed.
    pub proof fn lemma_slot_empty_iff(self)
        requires
            self.well_formed(),
        ensures
            forall|i: int|
                0 <= i < self.capacity() ==> ((#[trigger] self.spec_slot_is_empty(i))
                    <==> self.slot_keys(i) =~= Set::<u64>::empty()),
    {
        self.lemma_slot_keys_eq();
        assert forall|i: int| 0 <= i < self.capacity() implies ((
        #[trigger] self.spec_slot_is_empty(i)) <==> self.slot_keys(i) =~= Set::<u64>::empty()) by {
            assert(slot_wf(self.table@[i], self.seed, i, self.capacity()));
            match self.table@[i] {
                Entry::Empty => {
                    assert(self.slot_map(i).dom() =~= Set::<u64>::empty());
                },
                Entry::ListEntry(l) => {
                    l.lemma_spec_len_card();
                    if self.slot_keys(i) =~= Set::<u64>::empty() {
                        assert(l@.dom() =~= Set::<u64>::empty());
                        assert(l@.dom().len() == 0);
                    }
                },
                Entry::TreeEntry(t) => {
                    let p = choose|p: (u64, u64)| t@.dom().contains(p);
                    assert(t@.dom().contains(p));
                    assert(p == (p.0, p.1));
                    assert(p.0 == spec_hash(self.seed, p.1));
                    assert(self.slot_map(i).dom().contains(p.1));
                    assert(self.slot_keys(i).contains(p.1));
                },
            }
        }
    }

    /// Slots that are not tree-shaped hold at most the promotion
    /// threshold of keys.
    proof fn lemma_nontree_bound(self)
        requires
            self.table_wf(),
        ensures
            forall|i: int|
                0 <= i < self.capacity() && !self.spec_slot_is_tree(i) ==> (
                #[trigger] self.slot_map(i)).dom().finite() && self.slot_map(i).dom().len()
                    <= PROMOTION_THRESHOLD,
    {
        assert forall|i: int| 0 <= i < self.capacity() && !self.spec_slot_is_tree(i) implies (
        #[trigger] self.slot_map(i)).dom().finite() && self.slot_map(i).dom().len()
            <= PROMOTION_THRESHOLD by {
            assert(slot_wf(self.table@[i], self.seed, i, self.capacity()));
            match self.table@[i] {
                Entry::Empty => {
                    assert(self.slot_map(i).dom() =~= Set::<u64>::empty());
                },
                Entry::ListEntry(l) => {
                    l.lemma_spec_len_card();
                },
                Entry::TreeEntry(_) => {},
            }
        }
    }

    /// Whether the given slot currently holds a tree-shaped bucket; an
    /// out-of-range index reports false. This observes the bucket
    /// lifecycle from outside.
    pub fn slot_is_tree(&self, index: usize) -> (r: bool)
        ensures
            r == (index < self.capacity() && self.spec_slot_is_tree(index as int)),
    {
        if index < self.table.len() {
            match &self.table[index] {
                Entry::TreeEntry(_) => true,
                _ => false,
            }
        } else {
            false
        }
    }

    /// Whether the slot holds a tree bucket.
    pub closed spec fn spec_slot_is_tree(self, i: int) -> bool {
        self.table@[i] is TreeEntry
    }

    /// Whether the slot holds no bucket at all.
    pub closed spec fn spec_slot_is_empty(self, i: int) -> bool {
        self.table@[i] is Empty
    }

    /// Creates a table with a randomized hash seed and the default
    /// capacity of sixteen Empty slots.
    pub fn new() -> (m: Self)
        ensures
            m.well_formed(),
            m@ == Map::<u64, V>::empty(),
            m.capacity() == DEFAULT_CAPACITY,
            forall|i: int| 0 <= i < m.capacity() ==> m.spec_slot_is_empty(i),
    {
        let m = Self::with_capacity_and_hasher(DEFAULT_CAPACITY, random_seed());
        proof {
            assert(is_pow2(1));
            assert(is_pow2(2));
            assert(is_pow2(4));
            assert(is_pow2(8));
            assert(is_pow2(16));
        }
        m
    }

    /// Creates a table with a randomized hash seed; the capacity becomes
    /// the least power of two at least the hint (and at least one).
    pub fn with_capacity(cap: usize) -> (m: Self)
        requires
            cap <= usize::MAX / 2 + 1,
        ensures
            m.well_formed(),
            m@ == Map::<u64, V>::empty(),
            m.capacity() >= cap,
            m.capacity() >= 1,
            is_pow2(m.capacity()),
            cap > 1 ==> m.capacity() < 2 * cap,
            forall|c2: nat| is_pow2(c2) && c2 >= cap ==> m.capacity() <= c2,
            forall|i: int| 0 <= i < m.capacity() ==> m.spec_slot_is_empty(i),
    {
        Self::with_capacity_and_hasher(cap, random_seed())
    }

    /// Creates a table with the given hash seed and the default capacity
    /// of sixteen Empty slots.
    pub fn with_hasher(seed: u64) -> (m: Self)
        ensures
            m.well_formed(),
            m@ == Map::<u64, V>::empty(),
            m.seed() == seed,
            m.capacity() == DEFAULT_CAPACITY,
            forall|i: int| 0 <= i < m.capacity() ==> m.spec_slot_is_empty(i),
    {
        let m = Self::with_capacity_and_hasher(DEFAULT_CAPACITY, seed);
        proof {
            assert(is_pow2(1));
            assert(is_pow2(2));
            assert(is_pow2(4));
            assert(is_pow2(8));
            assert(is_pow2(16));
        }
        m
    }

    /// Creates a table with the given capacity hint and hash seed. The
    /// capacity becomes the least power of two that is at least the hint
    /// (and at least one); every slot starts out Empty.
    pub fn with_capacity_and_hasher(cap: usize, seed: u64) -> (m: Self)
        requires
            cap <= usize::MAX / 2 + 1,
        ensures
            m.well_formed(),
            m@ == Map::<u64, V>::empty(),
            m.seed() == seed,
            m.capacity() >= cap,
            m.capacity() >= 1,
            is_pow2(m.capacity()),
            cap > 1 ==> m.capacity() < 2 * cap,
            forall|c2: nat| is_pow2(c2) && c2 >= cap ==> m.capacity() <= c2,
            forall|i: int| 0 <= i < m.capacity() ==> m.spec_slot_is_empty(i),
    {
        let mut capacity: usize = 1;
        while capacity < cap
            invariant
                1 <= capacity,
                is_pow2(capacity as nat),
                capacity == 1 || capacity / 2 < cap,
                cap <= usize::MAX / 2 + 1,
            decreases
                    (if capacity >= cap {
                        0int
                    } else {
                        cap - capacity
                    }),
        {
            capacity = capacity * 2;
        }
        proof {
            assert forall|c2: nat| is_pow2(c2) && c2 >= cap implies capacity as nat <= c2 by {
                if capacity != 1 {
                    assert(is_pow2(capacity as nat / 2));
                    if capacity as nat / 2 < c2 {
                        lemma_pow2_gap(capacity as nat / 2, c2);
                    }
                }
            }
        }
        let mut table: Vec<Entry<V>> = Vec::new();
        while table.len() < capacity
            invariant
                table@.len() <= capacity,
                forall|i: int| 0 <= i < table@.len() ==> #[trigger] table@[i] is Empty,
            decreases capacity - table.len(),
        {
            table.push(Entry::Empty);
        }
        let m = HashMap { table, seed, len: 0 };
        proof {
            assert forall|i: int| 0 <= i < m.table@.len() implies slot_wf(
                #[trigger] m.table@[i],
                m.seed,
                i,
                m.table@.len(),
            ) by {
                assert(m.table@[i] is Empty);
            }
            assert(m@.dom() =~= Set::<u64>::empty());
            assert(m@ =~= Map::<u64, V>::empty());
            assert(Set::<u64>::empty().len() == 0);
            assert(m@.dom().finite());
        }
        m
    }

    /// How many entries the table holds.
    pub fn len(&self) -> (r: usize)
        requires
            self.well_formed(),
        ensures
            r == self@.dom().len(),
    {
        self.len
    }

    /// Whether the table holds no entry.
    pub fn is_empty(&self) -> (r: bool)
        requires
            self.well_formed(),
        ensures
            r <==> self@ == Map::<u64, V>::empty(),
    {
        let r = self.len == 0;
        proof {
            if self.len == 0 {
                if exists|k: u64| self@.dom().contains(k) {
                    let k = choose|k: u64| self@.dom().contains(k);
                    vstd::set::axiom_set_remove_len(self@.dom(), k);
                }
                assert(self@.dom() =~= Set::<u64>::empty());
                assert(self@ =~= Map::<u64, V>::empty());
            } else {
                if self@ == Map::<u64, V>::empty() {
                    assert(self@.dom() =~= Set::<u64>::empty());
                }
            }
        }
        r
    }

    /// Looks the key up; on a hit returns the stored key and value.
    pub fn get_key_value(&self, key: u64) -> (r: Option<(&u64, &V)>)
        requires
            self.well_formed(),
        ensures
            match r {
                Some(kv) => self@.dom().contains(key) && *kv.0 == key && *kv.1 == self@[key],
                None => !self@.dom().contains(key),
            },
    {
        let h = hash_key(self.seed, key);
        let idx = (h % (self.table.len() as u64)) as usize;
        proof {
            assert(idx == self.key_slot(key));
        }
        match &self.table[idx] {
            Entry::Empty => {
                proof {
                    assert(!self.slot_map(idx as int).dom().contains(key));
                }
                None
            },
            Entry::ListEntry(l) => l.get_key_value(key),
            Entry::TreeEntry(t) => {
                let r = t.get_key_value(h, key);
                proof {
                    assert(self.slot_map(idx as int).dom().contains(key) == t@.dom().contains(
                        (h, key),
                    ));
                }
                r
            },
        }
    }

    /// Looks the key up and returns its value.
    pub fn get(&self, key: u64) -> (r: Option<&V>)
        requires
            self.well_formed(),
        ensures
            match r {
                Some(v) => self@.dom().contains(key) && *v == self@[key],
                None => !self@.dom().contains(key),
            },
    {
        match self.get_key_value(key) {
            Some(kv) => Some(kv.1),
            None => None,
        }
    }

    /// Whether the key is present.
    pub fn contains_key(&self, key: u64) -> (r: bool)
        requires
            self.well_formed(),
        ensures
            r == self@.dom().contains(key),
    {
        self.get_key_value(key).is_some()
    }

    /// Looks the key up and hands out the value to change in place; the
    /// table afterwards holds whatever the caller wrote through it, under
    /// the same keys. On a hit the key set is unchanged, and under that
    /// unchanged key set the table is again well formed; a caller chains
    /// the two clauses to keep using the table.
    #[verifier::rlimit(100)]
    pub fn get_mut(&mut self, key: u64) -> (r: Option<&mut V>)
        requires
            old(self).well_formed(),
        ensures
            match r {
                Some(v) => old(self)@.dom().contains(key) && *v == old(self)@[key] && final(
                    self)@ =~= old(self)@.insert(key, *final(v)) && final(self)@.dom() =~= old(
                    self)@.dom() && (final(self)@.dom() == old(self)@.dom() ==> final(
                    self).well_formed()) && final(self).seed() == old(self).seed(),
                None => !old(self)@.dom().contains(key) && final(self)@ =~= old(self)@ && (final(
                    self)@.dom() == old(self)@.dom() ==> final(self).well_formed()) && final(
                    self).seed() == old(self).seed(),
            },
    {
        let ghost pre = *old(self);
        let h = hash_key(self.seed, key);
        let idx = (h % (self.table.len() as u64)) as usize;
        proof {
            assert(idx == self.key_slot(key));
        }
        let r = match &mut self.table[idx] {
            Entry::Empty => {
                proof {
                    assert(!pre.slot_map(idx as int).dom().contains(key));
                }
                None
            },
            Entry::ListEntry(l) => l.get_mut(key),
            Entry::TreeEntry(t) => {
                proof {
                    assert(pre.slot_map(idx as int).dom().contains(key) == t@.dom().contains(
                        (h, key),
                    ));
                }
                t.get_mut(h, key)
            },
        };
        r
    }

    /// Places the entry in its slot without touching the count or the load
    /// factor: an Empty slot starts a chain, a chain that outgrows the
    /// threshold on a fresh key is promoted to a tree.
    fn insert_into_table(&mut self, key: u64, value: V) -> (old_v: Option<V>)
        requires
            old(self).table_wf(),
            old(self)@.dom().finite(),
            old(self)@.dom().len() < usize::MAX,
        ensures
            final(self).table_wf(),
            final(self)@ == old(self)@.insert(key, value),
            old_v == if old(self)@.dom().contains(key) {
                Some(old(self)@[key])
            } else {
                None::<V>
            },
            final(self).len == old(self).len,
            final(self).seed == old(self).seed,
            final(self).capacity() == old(self).capacity(),
            forall|i: int|
                0 <= i < old(self).capacity() && i != old(self).key_slot(key) ==> final(
                    self).table@[i] == old(self).table@[i],
            final(self).spec_slot_is_tree(old(self).key_slot(key)) <==> (old(
                self).spec_slot_is_tree(old(self).key_slot(key)) || slot_kmap(
                final(self).table@[old(self).key_slot(key)],
                old(self).seed,
            ).dom().len() > PROMOTION_THRESHOLD),
    {
        let ghost cap = self.capacity();
        let ghost seed = self.seed;
        let h = hash_key(self.seed, key);
        let idx = (h % (self.table.len() as u64)) as usize;
        proof {
            assert(idx == self.key_slot(key));
        }
        let mut slot = Entry::Empty;
        core::mem::swap(&mut self.table[idx], &mut slot);
        let ghost osm = slot_kmap(slot, seed);
        proof {
            assert(slot == old(self).table@[idx as int]);
            assert(slot_wf(slot, seed, idx as int, cap));
        }
        let (new_slot, old_v) = match slot {
            Entry::Empty => {
                let mut l = LinkedList::new();
                l.insert(h, key, value);
                proof {
                    assert(l.spec_len() == 1);
                    l.lemma_spec_len_card();
                    assert(slot_kmap(Entry::ListEntry(l), seed) =~= osm.insert(key, (h, value)));
                }
                (Entry::ListEntry(l), None::<V>)
            },
            Entry::ListEntry(mut l) => {
                let old_v = l.insert(h, key, value);
                if old_v.is_none() && l.longer_than(PROMOTION_THRESHOLD) {
                    let ghost lm = l@;
                    proof {
                        l.lemma_spec_len_card();
                    }
                    let t = promote(l);
                    proof {
                        assert(t@.dom().contains((h, key)));
                        assert forall|k2: u64|
                            #[trigger] tree_kmap(t@, seed).dom().contains(k2) == lm.dom().contains(
                                k2,
                            ) by {
                            if lm.dom().contains(k2) {
                                assert(lm[k2].0 == spec_hash(seed, k2));
                                assert(t@.dom().contains((spec_hash(seed, k2), k2)));
                            }
                        }
                        assert(slot_kmap(Entry::TreeEntry(t), seed) =~= osm.insert(
                            key,
                            (h, value),
                        ));
                        assert(slot_kmap(Entry::TreeEntry(t), seed).dom() == lm.dom());
                        assert(lm.dom().len() > PROMOTION_THRESHOLD);
                    }
                    (Entry::TreeEntry(t), old_v)
                } else {
                    proof {
                        l.lemma_spec_len_card();
                        assert(l.spec_len() <= PROMOTION_THRESHOLD);
                    }
                    (Entry::ListEntry(l), old_v)
                }
            },
            Entry::TreeEntry(mut t) => {
                proof {
                    t.lemma_view_finite();
                    lemma_keys_of_card(t@.dom(), seed);
                    assert forall|k2: u64| #[trigger] keys_of(t@.dom()).contains(k2)
                        implies old(self)@.dom().contains(k2) by {
                        let h2 = choose|h2: u64| t@.dom().contains((h2, k2));
                        assert(h2 == spec_hash(seed, k2));
                        assert(old(self).slot_map(idx as int).dom().contains(k2));
                        assert(old(self).key_slot(k2) == idx);
                    }
                    vstd::set_lib::lemma_len_subset(keys_of(t@.dom()), old(self)@.dom());
                }
                let ghost tm = t@;
                let old_v = t.insert(h, key, value);
                proof {
                    assert(t@.dom().contains((h, key)));
                    assert forall|k2: u64| #[trigger] tree_kmap(t@, seed).dom().contains(k2)
                        implies tree_kmap(tm, seed).insert(key, (h, value)).dom().contains(
                        k2,
                    ) by {
                        if k2 != key {
                            assert((spec_hash(seed, k2), k2) != (h, key));
                        }
                    }
                    assert(slot_kmap(Entry::TreeEntry(t), seed) =~= osm.insert(key, (h, value)));
                    assert(osm.dom().contains(key) == tm.dom().contains((h, key)));
                }
                (Entry::TreeEntry(t), old_v)
            },
        };
        let mut ns = new_slot;
        core::mem::swap(&mut self.table[idx], &mut ns);
        proof {
            assert(self.table@ =~= old(self).table@.update(idx as int, new_slot));
            assert(slot_kmap(new_slot, seed) == osm.insert(key, (h, value)));
            assert forall|i: int| 0 <= i < self.table@.len() implies slot_wf(
                #[trigger] self.table@[i],
                seed,
                i,
                cap,
            ) by {
                if i != idx {
                    assert(self.table@[i] == old(self).table@[i]);
                    assert(slot_wf(old(self).table@[i], seed, i, cap));
                }
            }
            assert(old(self)@.dom().contains(key) == osm.dom().contains(key));
            if osm.dom().contains(key) {
                assert(old(self)@[key] == osm[key].1);
            }
            assert forall|k2: u64| true implies #[trigger] self@.dom().contains(k2) == old(
                self,
            )@.insert(key, value).dom().contains(k2) && (self@.dom().contains(k2)
                ==> self@[k2] == old(self)@.insert(key, value)[k2]) by {
                if self.key_slot(k2) == idx {
                    if k2 != key {
                        assert(self.slot_map(idx as int).dom().contains(k2) == osm.dom().contains(
                            k2,
                        ));
                    }
                } else {
                    assert(k2 != key);
                    assert(self.slot_map(self.key_slot(k2)) == old(self).slot_map(
                        old(self).key_slot(k2),
                    ));
                }
            }
            assert(self@ =~= old(self)@.insert(key, value));
            assert(self.table@[idx as int] == new_slot);
            assert(self.spec_slot_is_tree(idx as int) <==> (old(self).spec_slot_is_tree(
                idx as int,
            ) || slot_kmap(self.table@[idx as int], seed).dom().len() > PROMOTION_THRESHOLD));
        }
        old_v
    }

    /// Inserts the entry: the previous value of the key is replaced and
    /// returned; a fresh key raises the count. The table doubles its
    /// capacity exactly when the count after the insertion reaches three
    /// quarters of it; when it does not, each slot becomes tree-shaped
    /// exactly when it already was, or its chain has outgrown the
    /// promotion threshold.
    pub fn insert(&mut self, key: u64, value: V) -> (old_v: Option<V>)
        requires
            old(self).well_formed(),
            old(self)@.dom().len() < usize::MAX,
        ensures
            final(self).well_formed(),
            final(self)@ == old(self)@.insert(key, value),
            old_v == if old(self)@.dom().contains(key) {
                Some(old(self)@[key])
            } else {
                None::<V>
            },
            final(self).seed() == old(self).seed(),
            final(self).capacity() == (if old(self)@.insert(key, value).dom().len() >= old(
                self).capacity() - old(self).capacity() / 4 && old(self).capacity() <= usize::MAX
                / 2 {
                2 * old(self).capacity()
            } else {
                old(self).capacity()
            }),
            final(self).capacity() == old(self).capacity() ==> forall|i: int|
                0 <= i < old(self).capacity() ==> ((#[trigger] final(self).spec_slot_is_tree(i))
                    <==> (old(self).spec_slot_is_tree(i) || final(self).slot_keys(i).len()
                    > PROMOTION_THRESHOLD)),
    {
        let ghost pre = *old(self);
        let old_v = self.insert_into_table(key, value);
        if old_v.is_none() {
            self.len = self.len + 1;
        }
        proof {
            assert(self@ =~= old(self)@.insert(key, value));
            assert(self@.dom() =~= old(self)@.dom().insert(key));
            assert(self.len == old(self)@.insert(key, value).dom().len());
        }
        let cap = self.table.len();
        if self.len >= cap - cap / 4 && cap <= usize::MAX / 2 {
            self.resize();
            proof {
                assert(self.capacity() == 2 * pre.capacity());
                assert(pre.capacity() >= 1);
            }
        } else {
            proof {
                self.lemma_slot_keys_eq();
                pre.lemma_slot_keys_eq();
                pre.lemma_nontree_bound();
                let idx = pre.key_slot(key);
                assert forall|i: int| 0 <= i < pre.capacity() implies ((
                #[trigger] self.spec_slot_is_tree(i)) <==> (pre.spec_slot_is_tree(i)
                    || self.slot_keys(i).len() > PROMOTION_THRESHOLD)) by {
                    if i == idx {
                        assert(self.slot_keys(i) == self.slot_map(i).dom());
                        assert(self.slot_map(i) == slot_kmap(self.table@[i], pre.seed));
                    } else {
                        assert(self.table@[i] == pre.table@[i]);
                        assert(self.slot_keys(i) == self.slot_map(i).dom());
                        assert(pre.slot_keys(i) == pre.slot_map(i).dom());
                        assert(self.slot_map(i) == pre.slot_map(i));
                        if !pre.spec_slot_is_tree(i) {
                            assert(pre.slot_map(i).dom().len() <= PROMOTION_THRESHOLD);
                        }
                    }
                }
            }
        }
        old_v
    }

    /// Removes the entry with the given key, returning its key and value;
    /// a bucket whose last entry leaves resets its slot to Empty (see
    /// `lemma_slot_empty_iff`), and a tree-shaped bucket is never demoted
    /// back to a chain.
    pub fn remove_entry(&mut self, key: u64) -> (r: Option<(u64, V)>)
        requires
            old(self).well_formed(),
        ensures
            final(self).well_formed(),
            final(self)@ == old(self)@.remove(key),
            r == if old(self)@.dom().contains(key) {
                Some((key, old(self)@[key]))
            } else {
                None::<(u64, V)>
            },
            final(self).seed() == old(self).seed(),
            final(self).capacity() == old(self).capacity(),
            forall|i: int|
                0 <= i < old(self).capacity() ==> ((#[trigger] final(self).spec_slot_is_tree(i))
                    ==> old(self).spec_slot_is_tree(i)),
            forall|i: int|
                0 <= i < old(self).capacity() ==> (old(self).spec_slot_is_tree(i) ==> final(
                    self).spec_slot_is_tree(i) || final(self).spec_slot_is_empty(i)),
    {
        let ghost cap = self.capacity();
        let ghost seed = self.seed;
        let h = hash_key(self.seed, key);
        let idx = (h % (self.table.len() as u64)) as usize;
        proof {
            assert(idx == self.key_slot(key));
        }
        let mut slot = Entry::Empty;
        core::mem::swap(&mut self.table[idx], &mut slot);
        let ghost osm = slot_kmap(slot, seed);
        let ghost oslot = slot;
        proof {
            assert(slot == old(self).table@[idx as int]);
            assert(slot_wf(slot, seed, idx as int, cap));
        }
        let (new_slot, r) = match slot {
            Entry::Empty => {
                proof {
                    assert(slot_kmap(Entry::<V>::Empty, seed) =~= osm.remove(key));
                }
                (Entry::Empty, None::<(u64, V)>)
            },
            Entry::ListEntry(mut l) => {
                let r = l.remove_entry(key);
                if l.is_empty() {
                    proof {
                        assert(slot_kmap(Entry::<V>::Empty, seed) =~= osm.remove(key));
                    }
                    (Entry::Empty, r)
                } else {
                    proof {
                        l.lemma_spec_len_card();
                        if l.spec_len() == 0 {
                            if exists|k: u64| l@.dom().contains(k) {
                                let k = choose|k: u64| l@.dom().contains(k);
                                vstd::set::axiom_set_remove_len(l@.dom(), k);
                            }
                            assert(l@.dom() =~= Set::<u64>::empty());
                            assert(l@ =~= Map::<u64, (u64, V)>::empty());
                        }
                        assert(l.spec_len() >= 1);
                    }
                    (Entry::ListEntry(l), r)
                }
            },
            Entry::TreeEntry(mut t) => {
                let ghost tm = t@;
                let r = t.remove_entry(h, key);
                proof {
                    assert(osm.dom().contains(key) == tm.dom().contains((h, key)));
                    assert forall|k2: u64| #[trigger] tree_kmap(t@, seed).dom().contains(k2)
                        implies tree_kmap(tm, seed).remove(key).dom().contains(k2) by {
                        if k2 != key {
                            assert((spec_hash(seed, k2), k2) != (h, key));
                        } else {
                            assert(!t@.dom().contains((h, key)));
                        }
                    }
                    assert(slot_kmap(Entry::TreeEntry(t), seed) =~= osm.remove(key));
                }
                if t.is_empty() {
                    proof {
                        assert(tree_kmap(t@, seed).dom() =~= Set::<u64>::empty());
                        assert(slot_kmap(Entry::<V>::Empty, seed) =~= osm.remove(key));
                    }
                    (Entry::Empty, r)
                } else {
                    proof {
                        if !(exists|p: (u64, u64)| t@.dom().contains(p)) {
                            assert(t@.dom() =~= Set::<(u64, u64)>::empty());
                            assert(t@ =~= Map::<(u64, u64), V>::empty());
                        }
                    }
                    (Entry::TreeEntry(t), r)
                }
            },
        };
        let mut ns = new_slot;
        core::mem::swap(&mut self.table[idx], &mut ns);
        proof {
            assert(self.table@ =~= old(self).table@.update(idx as int, new_slot));
            assert(slot_kmap(new_slot, seed) == osm.remove(key));
            assert forall|i: int| 0 <= i < self.table@.len() implies slot_wf(
                #[trigger] self.table@[i],
                seed,
                i,
                cap,
            ) by {
                if i != idx {
                    assert(self.table@[i] == old(self).table@[i]);
                    assert(slot_wf(old(self).table@[i], seed, i, cap));
                } else {
                    assert forall|k2: u64| #[trigger] slot_kmap(new_slot, seed).dom().contains(
                        k2,
                    ) implies slot_kmap(new_slot, seed)[k2].0 == spec_hash(seed, k2) && spec_hash(
                        seed,
                        k2,
                    ) as nat % cap == i by {
                        assert(osm.dom().contains(k2));
                    }
                }
            }
            assert(old(self)@.dom().contains(key) == osm.dom().contains(key));
            if osm.dom().contains(key) {
                assert(old(self)@[key] == osm[key].1);
            }
            assert forall|k2: u64| true implies #[trigger] self@.dom().contains(k2) == old(
                self,
            )@.remove(key).dom().contains(k2) && (self@.dom().contains(k2) ==> self@[k2] == old(
                self,
            )@.remove(key)[k2]) by {
                if self.key_slot(k2) == idx {
                } else {
                    assert(k2 != key);
                    assert(self.slot_map(self.key_slot(k2)) == old(self).slot_map(
                        old(self).key_slot(k2),
                    ));
                }
            }
            assert(self@ =~= old(self)@.remove(key));
            assert forall|i: int| 0 <= i < cap implies ((self.spec_slot_is_tree(i) ==> old(
                self).spec_slot_is_tree(i)) && (old(self).spec_slot_is_tree(i)
                ==> self.spec_slot_is_tree(i) || self.spec_slot_is_empty(i))) by {
                if i != idx {
                    assert(self.table@[i] == old(self).table@[i]);
                } else {
                    assert(self.table@[i] == new_slot);
                    assert(old(self).table@[i] == oslot);
                }
            }
        }
        if r.is_some() {
            proof {
                assert(old(self)@.dom().contains(key));
                vstd::set::axiom_set_remove_len(old(self)@.dom(), key);
            }
            self.len = self.len - 1;
        }
        proof {
            assert(self@.dom() =~= old(self)@.dom().remove(key));
        }
        r
    }

    fn empty_slots(n: usize) -> (v: Vec<Entry<V>>)
        ensures
            v@.len() == n,
            forall|i: int| 0 <= i < n ==> #[trigger] v@[i] is Empty,
    {
        let mut v: Vec<Entry<V>> = Vec::new();
        while v.len() < n
            invariant
                v@.len() <= n,
                forall|i: int| 0 <= i < v@.len() ==> #[trigger] v@[i] is Empty,
            decreases n - v.len(),
        {
            v.push(Entry::Empty);
        }
        v
    }

    /// Reinserts drained entries one by one; their keys are fresh to the
    /// table and pairwise distinct.
    fn reinsert_entries(&mut self, es: Vec<(u64, u64, V)>, Ghost(bigm): Ghost<Map<u64, V>>)
        requires
            old(self).table_wf(),
            old(self)@.dom().finite(),
            keys_distinct(es@),
            forall|k: u64|
                #[trigger] triples_kmap(es@).dom().contains(k) ==> !old(self)@.dom().contains(k)
                    && bigm.dom().contains(k),
            forall|k: u64| #[trigger] old(self)@.dom().contains(k) ==> bigm.dom().contains(k),
            bigm.dom().finite(),
            bigm.dom().len() <= usize::MAX,
        ensures
            final(self).table_wf(),
            final(self)@ == kview(triples_kmap(es@)).union_prefer_right(old(self)@),
            final(self)@.dom().finite(),
            final(self).len == old(self).len,
            final(self).seed == old(self).seed,
            final(self).capacity() == old(self).capacity(),
    {
        let ghost target = kview(triples_kmap(es@)).union_prefer_right(old(self)@);
        let mut es = es;
        while es.len() > 0
            invariant
                self.table_wf(),
                self@.dom().finite(),
                self.len == old(self).len,
                self.seed == old(self).seed,
                self.capacity() == old(self).capacity(),
                keys_distinct(es@),
                kview(triples_kmap(es@)).union_prefer_right(self@) == target,
                forall|k: u64|
                    #[trigger] triples_kmap(es@).dom().contains(k) ==> !self@.dom().contains(k)
                        && bigm.dom().contains(k),
                forall|k: u64| #[trigger] self@.dom().contains(k) ==> bigm.dom().contains(k),
                bigm.dom().finite(),
                bigm.dom().len() <= usize::MAX,
            decreases es@.len(),
        {
            let ghost before = es@;
            let e = es.pop().unwrap();
            proof {
                assert(before.drop_last() =~= es@);
                assert(triples_kmap(before) == triples_kmap(es@).insert(e.1, (e.0, e.2)));
                assert(triples_kmap(before).dom().contains(e.1));
                crate::entries::lemma_triples_kmap_dom(es@);
                if triples_kmap(es@).dom().contains(e.1) {
                    let i = choose|i: int| 0 <= i < es@.len() && #[trigger] es@[i].1 == e.1;
                    assert(before[i].1 == before[before.len() - 1].1);
                }
                assert(!triples_kmap(es@).dom().contains(e.1));
                assert(!self@.dom().contains(e.1));
                vstd::set::axiom_set_insert_len(self@.dom(), e.1);
                assert(self@.dom().insert(e.1).subset_of(bigm.dom()));
                vstd::set_lib::lemma_len_subset(self@.dom().insert(e.1), bigm.dom());
            }
            let ghost pre = self@;
            self.insert_into_table(e.1, e.2);
            proof {
                assert(self@ == pre.insert(e.1, e.2));
                assert(kview(triples_kmap(before))[e.1] == e.2);
                assert(kview(triples_kmap(es@)).union_prefer_right(self@) =~= kview(
                    triples_kmap(before),
                ).union_prefer_right(pre));
                assert(self@.dom() =~= pre.dom().insert(e.1));
                assert forall|k: u64| #[trigger] triples_kmap(es@).dom().contains(k)
                    implies !self@.dom().contains(k) && bigm.dom().contains(k) by {
                    assert(triples_kmap(before).dom().contains(k));
                    assert(k != e.1);
                }
            }
        }
        proof {
            assert(triples_kmap(es@) =~= Map::<u64, (u64, V)>::empty());
            assert(kview(triples_kmap(es@)).union_prefer_right(self@) =~= self@);
        }
    }

    /// Doubles the capacity and reinserts every entry into a fresh slot
    /// array by recomputed index; no entry is dropped or duplicated.
    fn resize(&mut self)
        requires
            old(self).well_formed(),
            old(self).capacity() * 2 <= usize::MAX,
        ensures
            final(self).well_formed(),
            final(self)@ == old(self)@,
            final(self).len == old(self).len,
            final(self).seed == old(self).seed,
            final(self).capacity() == old(self).capacity() * 2,
    {
        let ghost oldt = *old(self);
        let ghost ov = old(self)@;
        let new_cap = self.table.len() * 2;
        let mut nt = Self::empty_slots(new_cap);
        core::mem::swap(&mut self.table, &mut nt);
        proof {
            assert((new_cap as nat) % 2 == 0 && (new_cap as nat) / 2 == oldt.capacity());
            assert(is_pow2(new_cap as nat));
            assert forall|i: int| 0 <= i < self.table@.len() implies slot_wf(
                #[trigger] self.table@[i],
                self.seed,
                i,
                self.table@.len(),
            ) by {
                assert(self.table@[i] is Empty);
            }
            assert(self@.dom() =~= Set::<u64>::empty());
            assert(self@ =~= Map::new(
                |k: u64| ov.dom().contains(k) && oldt.key_slot(k) >= nt@.len(),
                |k: u64| ov[k],
            ));
        }
        while nt.len() > 0
            invariant
                self.table_wf(),
                self@.dom().finite(),
                self.len == oldt.len,
                self.seed == oldt.seed,
                self.capacity() == 2 * oldt.capacity(),
                nt@.len() <= oldt.table@.len(),
                nt@ == oldt.table@.take(nt@.len() as int),
                oldt.well_formed(),
                ov == oldt@,
                self@ == Map::new(
                    |k: u64| ov.dom().contains(k) && oldt.key_slot(k) >= nt@.len(),
                    |k: u64| ov[k],
                ),
            decreases nt@.len(),
        {
            let ghost j = nt@.len() - 1;
            let ghost pre_view = self@;
            let slot = nt.pop().unwrap();
            proof {
                assert(oldt.table@.take(j + 1).drop_last() =~= oldt.table@.take(j));
                assert(nt@ =~= oldt.table@.take(nt@.len() as int));
                assert(slot == oldt.table@[j]);
                assert(slot_wf(slot, oldt.seed, j, oldt.capacity()));
                assert forall|k: u64| #[trigger] slot_kmap(slot, oldt.seed).dom().contains(k)
                    implies ov.dom().contains(k) && !pre_view.dom().contains(k) && ov[k]
                    == slot_kmap(slot, oldt.seed)[k].1 by {
                    assert(oldt.key_slot(k) == j);
                    assert(oldt.slot_map(j) == slot_kmap(slot, oldt.seed));
                }
            }
            match slot {
                Entry::Empty => {
                    proof {
                        assert(self@ =~= Map::new(
                            |k: u64| ov.dom().contains(k) && oldt.key_slot(k) >= nt@.len(),
                            |k: u64| ov[k],
                        ));
                    }
                },
                Entry::ListEntry(l) => {
                    let es = l.into_entries();
                    proof {
                        assert forall|k: u64| #[trigger] triples_kmap(es@).dom().contains(k)
                            implies !self@.dom().contains(k) && ov.dom().contains(k) by {
                            assert(slot_kmap(slot, oldt.seed).dom().contains(k));
                        }
                    }
                    self.reinsert_entries(es, Ghost(ov));
                    proof {
                        assert(self@ =~= Map::new(
                            |k: u64| ov.dom().contains(k) && oldt.key_slot(k) >= nt@.len(),
                            |k: u64| ov[k],
                        ));
                    }
                },
                Entry::TreeEntry(t) => {
                    let ghost tm = t@;
                    let es = t.into_entries();
                    proof {
                        lemma_tree_entries(es@, tm, oldt.seed);
                        assert forall|k: u64| #[trigger] triples_kmap(es@).dom().contains(k)
                            implies !self@.dom().contains(k) && ov.dom().contains(k) by {
                            assert(slot_kmap(slot, oldt.seed).dom().contains(k));
                        }
                    }
                    self.reinsert_entries(es, Ghost(ov));
                    proof {
                        assert(self@ =~= Map::new(
                            |k: u64| ov.dom().contains(k) && oldt.key_slot(k) >= nt@.len(),
                            |k: u64| ov[k],
                        ));
                    }
                },
            }
        }
        proof {
            assert(self@ =~= ov);
        }
    }

    /// Consumes the table, handing every entry out as an owned (key,
    /// value) pair: exactly one pair per held key, none dropped and none
    /// duplicated, in no particular order.
    pub fn into_entries(self) -> (out: Vec<(u64, V)>)
        requires
            self.well_formed(),
        ensures
            kvs_distinct(out@),
            kvs_map(out@) == self@,
            out@.len() == self@.dom().len(),
    {
        let ghost oldt = self;
        let ghost ov = self@;
        let mut nt = self.table;
        let mut out: Vec<(u64, V)> = Vec::new();
        proof {
            assert(oldt.table@.take(oldt.table@.len() as int) =~= oldt.table@);
            assert(kvs_map(out@) =~= Map::new(
                |k: u64| ov.dom().contains(k) && oldt.key_slot(k) >= nt@.len(),
                |k: u64| ov[k],
            ));
        }
        while nt.len() > 0
            invariant
                nt@.len() <= oldt.table@.len(),
                nt@ == oldt.table@.take(nt@.len() as int),
                oldt.well_formed(),
                ov == oldt@,
                kvs_distinct(out@),
                kvs_map(out@) == Map::new(
                    |k: u64| ov.dom().contains(k) && oldt.key_slot(k) >= nt@.len(),
                    |k: u64| ov[k],
                ),
                forall|i: int|
                    0 <= i < out@.len() ==> ov.dom().contains(#[trigger] out@[i].0)
                        && oldt.key_slot(out@[i].0) >= nt@.len(),
            decreases nt@.len(),
        {
            let ghost j = nt@.len() - 1;
            let slot = nt.pop().unwrap();
            proof {
                assert(oldt.table@.take(j + 1).drop_last() =~= oldt.table@.take(j));
                assert(nt@ =~= oldt.table@.take(nt@.len() as int));
                assert(slot == oldt.table@[j]);
                assert(slot_wf(slot, oldt.seed, j, oldt.capacity()));
                assert forall|k: u64| #[trigger] slot_kmap(slot, oldt.seed).dom().contains(k)
                    implies ov.dom().contains(k) && oldt.key_slot(k) == j && ov[k] == slot_kmap(
                    slot,
                    oldt.seed,
                )[k].1 by {
                    assert(oldt.key_slot(k) == j);
                    assert(oldt.slot_map(j) == slot_kmap(slot, oldt.seed));
                }
            }
            let ghost skm = slot_kmap(slot, oldt.seed);
            let mut es: Vec<(u64, u64, V)> = match slot {
                Entry::Empty => Vec::new(),
                Entry::ListEntry(l) => l.into_entries(),
                Entry::TreeEntry(t) => {
                    let ghost tm = t@;
                    let es = t.into_entries();
                    proof {
                        lemma_tree_entries(es@, tm, oldt.seed);
                    }
                    es
                },
            };
            proof {
                assert(triples_kmap(es@) == skm);
                assert(keys_distinct(es@));
            }
            let ghost base = kvs_map(out@);
            let ghost target = Map::new(
                |k: u64| ov.dom().contains(k) && oldt.key_slot(k) >= j,
                |k: u64| ov[k],
            );
            proof {
                assert(kview(triples_kmap(es@)).union_prefer_right(kvs_map(out@)) =~= target);
            }
            while es.len() > 0
                invariant
                    kvs_distinct(out@),
                    keys_distinct(es@),
                    kview(triples_kmap(es@)).union_prefer_right(kvs_map(out@)) == target,
                    forall|k: u64|
                        #[trigger] triples_kmap(es@).dom().contains(k) ==> skm.dom().contains(k)
                            && !kvs_map(out@).dom().contains(k),
                    forall|i: int|
                        0 <= i < out@.len() ==> ov.dom().contains(#[trigger] out@[i].0)
                            && oldt.key_slot(out@[i].0) >= j,
                    forall|k: u64|
                        #[trigger] skm.dom().contains(k) ==> ov.dom().contains(k)
                            && oldt.key_slot(k) == j && ov[k] == skm[k].1,
                decreases es@.len(),
            {
                let ghost before = es@;
                let e = es.pop().unwrap();
                proof {
                    assert(before.drop_last() =~= es@);
                    assert(triples_kmap(before) == triples_kmap(es@).insert(e.1, (e.0, e.2)));
                    assert(triples_kmap(before).dom().contains(e.1));
                    crate::entries::lemma_triples_kmap_dom(es@);
                    if triples_kmap(es@).dom().contains(e.1) {
                        let i = choose|i: int| 0 <= i < es@.len() && #[trigger] es@[i].1 == e.1;
                        assert(before[i].1 == before[before.len() - 1].1);
                    }
                    assert(!triples_kmap(es@).dom().contains(e.1));
                }
                let ghost outp = out@;
                proof {
                    assert(triples_kmap(before).dom().contains(e.1));
                    assert(!kvs_map(outp).dom().contains(e.1));
                    lemma_kvs_dom(outp);
                    assert forall|i: int| 0 <= i < outp.len() implies outp[i].0 != e.1 by {
                        if outp[i].0 == e.1 {
                            assert(kvs_map(outp).dom().contains(e.1));
                        }
                    }
                }
                out.push((e.1, e.2));
                proof {
                    assert(out@.drop_last() =~= outp);
                    assert(kvs_map(out@) == kvs_map(outp).insert(e.1, e.2));
                    assert(kview(triples_kmap(before))[e.1] == e.2);
                    assert(kview(triples_kmap(es@)).union_prefer_right(kvs_map(out@)) =~= kview(
                        triples_kmap(before),
                    ).union_prefer_right(kvs_map(outp)));
                    assert forall|k: u64| #[trigger] triples_kmap(es@).dom().contains(k)
                        implies skm.dom().contains(k) && !kvs_map(out@).dom().contains(k) by {
                        assert(triples_kmap(before).dom().contains(k));
                        assert(k != e.1);
                    }
                }
            }
            proof {
                assert(triples_kmap(es@) =~= Map::<u64, (u64, V)>::empty());
                assert(kvs_map(out@) =~= kview(triples_kmap(es@)).union_prefer_right(
                    kvs_map(out@),
                ));
            }
        }
        proof {
            assert(kvs_map(out@) =~= ov);
            lemma_kvs_card(out@);
        }
        out
    }

    /// Builds a table from a sequence of (key, value) pairs by repeated
    /// insertion; on duplicate keys the last value wins.
    pub fn from_entries(pairs: Vec<(u64, V)>) -> (m: Self)
        ensures
            m.well_formed(),
            m@ == kvs_map(pairs@),
    {
        let ghost orig = pairs@;
        proof {
            assert(orig.len() == pairs.len());
        }
        let mut pairs = pairs;
        let mut rev: Vec<(u64, V)> = Vec::new();
        proof {
            assert(orig.take(orig.len() as int) =~= orig);
        }
        while pairs.len() > 0
            invariant
                rev@.len() + pairs@.len() == orig.len(),
                pairs@ == orig.take(pairs@.len() as int),
                forall|i: int| 0 <= i < rev@.len() ==> rev@[i] == orig[orig.len() - 1 - i],
            decreases pairs@.len(),
        {
            let e = pairs.pop().unwrap();
            rev.push(e);
            proof {
                assert(orig.take((pairs@.len() + 1) as int).drop_last() =~= orig.take(
                    pairs@.len() as int,
                ));
            }
        }
        let mut m = Self::new();
        proof {
            assert(orig.take(0) =~= Seq::<(u64, V)>::empty());
            assert(m@ == kvs_map(orig.take((orig.len() - rev@.len()) as int)));
        }
        while rev.len() > 0
            invariant
                m.well_formed(),
                rev@.len() <= orig.len(),
                orig.len() <= usize::MAX,
                forall|i: int| 0 <= i < rev@.len() ==> rev@[i] == orig[orig.len() - 1 - i],
                m@ == kvs_map(orig.take((orig.len() - rev@.len()) as int)),
                m@.dom().len() + rev@.len() <= orig.len(),
            decreases rev@.len(),
        {
            let ghost j = orig.len() - rev@.len();
            let e = rev.pop().unwrap();
            proof {
                assert(e == orig[j as int]);
                assert(orig.take(j as int + 1).drop_last() =~= orig.take(j as int));
                assert(kvs_map(orig.take(j as int + 1)) == m@.insert(e.0, e.1));
            }
            m.insert(e.0, e.1);
            proof {
                assert(m@.dom() =~= kvs_map(orig.take(j as int)).dom().insert(e.0));
            }
        }
        proof {
            assert(orig.take((orig.len() - 0) as int) =~= orig);
        }
        m
    }

    /// Removes the entry with the given key and returns its value.
    pub fn remove(&mut self, key: u64) -> (r: Option<V>)
        requires
            old(self).well_formed(),
        ensures
            final(self).well_formed(),
            final(self)@ == old(self)@.remove(key),
            r == if old(self)@.dom().contains(key) {
                Some(old(self)@[key])
            } else {
                None::<V>
            },
            final(self).seed() == old(self).seed(),
            final(self).capacity() == old(self).capacity(),
            forall|i: int|
                0 <= i < old(self).capacity() ==> ((#[trigger] final(self).spec_slot_is_tree(i))
                    ==> old(self).spec_slot_is_tree(i)),
            forall|i: int|
                0 <= i < old(self).capacity() ==> (old(self).spec_slot_is_tree(i) ==> final(
                    self).spec_slot_is_tree(i) || final(self).spec_slot_is_empty(i)),
    {
        match self.remove_entry(key) {
            Some(kv) => Some(kv.1),
            None => None,
        }
    }
}

} // verus!
