//! A chained bucket: a singly-linked list of (hash, key, value) entries for
//! one table slot, scanned linearly and keyed by the key alone. A new key is
//! appended at the tail of the chain; replacing an existing key keeps its
//! position, so scan order is stable between mutations.

use crate::entries::keys_distinct;
use crate::entries::triples_kmap;
use vstd::prelude::*;

verus! {

broadcast use vstd::set::group_set_axioms;

#[derive(Debug)]
struct Node<V> {
    hash: u64,
    key: u64,
    value: V,
    next: Option<Box<Node<V>>>,
}

/// A singly-linked chain of entries with pairwise-distinct keys.
#[derive(Debug)]
pub struct LinkedList<V> {
    head: Option<Box<Node<V>>>,
}

/// The map from key to (hash, value) described by a chain.
spec fn lmap<V>(n: Option<Box<Node<V>>>) -> Map<u64, (u64, V)>
    decreases n,
{
    match n {
        None => Map::empty(),
        Some(node) => lmap(node.next).insert(node.key, (node.hash, node.value)),
    }
}

/// The number of nodes of a chain.
spec fn lcnt<V>(n: Option<Box<Node<V>>>) -> nat
    decreases n,
{
    match n {
        None => 0,
        Some(node) => 1 + lcnt(node.next),
    }
}

/// Keys are pairwise distinct along the chain.
spec fn lwf<V>(n: Option<Box<Node<V>>>) -> bool
    decreases n,
{
    match n {
        None => true,
        Some(node) => !lmap(node.next).dom().contains(node.key) && lwf(node.next),
    }
}

/// A chain with distinct keys holds exactly one node per key of its map.
proof fn lemma_lcnt_card<V>(n: Option<Box<Node<V>>>)
    requires
        lwf(n),
    ensures
        lmap(n).dom().finite(),
        lmap(n).dom().len() == lcnt(n),
    decreases n,
{
    match n {
        None => {
            assert(lmap(n).dom() =~= Set::<u64>::empty());
        },
        Some(node) => {
            lemma_lcnt_card(node.next);
            assert(lmap(n).dom() =~= lmap(node.next).dom().insert(node.key));
            vstd::set::axiom_set_insert_len(lmap(node.next).dom(), node.key);
        },
    }
}

impl<V> View for LinkedList<V> {
    type V = Map<u64, (u64, V)>;

    closed spec fn view(&self) -> Map<u64, (u64, V)> {
        lmap(self.head)
    }
}

impl<V> LinkedList<V> {
    /// The chain's keys are pairwise distinct.
    pub closed spec fn well_formed(self) -> bool {
        lwf(self.head)
    }

    /// How many entries the chain holds.
    pub closed spec fn spec_len(self) -> nat {
        lcnt(self.head)
    }

    /// A well-formed chain holds exactly one node per key: its key set is
    /// finite and as large as its node count.
    pub proof fn lemma_spec_len_card(self)
        requires
            self.well_formed(),
        ensures
            self@.dom().finite(),
            self@.dom().len() == self.spec_len(),
    {
        lemma_lcnt_card(self.head);
    }

    /// Creates an empty chain.
    pub fn new() -> (l: Self)
        ensures
            l.well_formed(),
            l@ == Map::<u64, (u64, V)>::empty(),
            l.spec_len() == 0,
    {
        LinkedList { head: None }
    }

    /// Whether the chain holds no entry.
    pub fn is_empty(&self) -> (r: bool)
        ensures
            r <==> self@ == Map::<u64, (u64, V)>::empty(),
    {
        match &self.head {
            None => true,
            Some(node) => {
                proof {
                    assert(self@.dom().contains(node.key));
                }
                false
            },
        }
    }

    /// Whether the chain holds more than `limit` entries.
    pub fn longer_than(&self, limit: usize) -> (r: bool)
        ensures
            r <==> self.spec_len() > limit,
    {
        Self::longer_than_in(&self.head, limit)
    }

    fn longer_than_in(n: &Option<Box<Node<V>>>, limit: usize) -> (r: bool)
        ensures
            r <==> lcnt(*n) > limit,
        decreases *n,
    {
        match n {
            None => false,
            Some(node) => {
                if limit == 0 {
                    true
                } else {
                    Self::longer_than_in(&node.next, limit - 1)
                }
            },
        }
    }

    /// Looks the key up; on a hit returns the stored key and value.
    pub fn get_key_value(&self, key: u64) -> (r: Option<(&u64, &V)>)
        ensures
            match r {
                Some(kv) => self@.dom().contains(key) && *kv.0 == key && *kv.1 == self@[key].1,
                None => !self@.dom().contains(key),
            },
    {
        Self::get_in(&self.head, key)
    }

    fn get_in(n: &Option<Box<Node<V>>>, key: u64) -> (r: Option<(&u64, &V)>)
        ensures
            match r {
                Some(kv) => lmap(*n).dom().contains(key) && *kv.0 == key && *kv.1 == lmap(
                    *n,
                )[key].1,
                None => !lmap(*n).dom().contains(key),
            },
        decreases *n,
    {
        match n {
            None => None,
            Some(node) => {
                if node.key == key {
                    Some((&node.key, &node.value))
                } else {
                    Self::get_in(&node.next, key)
                }
            },
        }
    }

    /// Looks the key up and hands out the value to change in place; the
    /// chain afterwards holds whatever the caller wrote through it.
    pub fn get_mut(&mut self, key: u64) -> (r: Option<&mut V>)
        requires
            old(self).well_formed(),
        ensures
            match r {
                Some(v) => old(self)@.dom().contains(key) && *v == old(self)@[key].1 && final(
                    self).well_formed() && final(self).spec_len() == old(self).spec_len() && final(
                    self)@ == old(self)@.insert(
                    key,
                    (old(self)@[key].0, *final(v)),
                ),
                None => !old(self)@.dom().contains(key) && *final(self) == *old(self),
            },
    {
        Self::get_mut_in(&mut self.head, key)
    }

    fn get_mut_in(n: &mut Option<Box<Node<V>>>, key: u64) -> (r: Option<&mut V>)
        requires
            lwf(*old(n)),
        ensures
            match r {
                Some(v) => lmap(*old(n)).dom().contains(key) && *v == lmap(*old(n))[key].1 && lwf(
                    *final(n)) && lcnt(*final(n)) == lcnt(*old(n)) && lmap(*final(n)) == lmap(
                    *old(n)).insert(
                    key,
                    (lmap(*old(n))[key].0, *final(v)),
                ),
                None => !lmap(*old(n)).dom().contains(key) && *final(n) == *old(n),
            },
        decreases *old(n),
    {
        match n {
            None => None,
            Some(node) => {
                if node.key == key {
                    proof {
                        assert(!lmap(node.next).dom().contains(key));
                    }
                    Some(&mut node.value)
                } else {
                    Self::get_mut_in(&mut node.next, key)
                }
            },
        }
    }

    /// Inserts the entry. If the key is already present its value (and
    /// cached hash) are replaced in place and the old value is returned;
    /// otherwise the entry is appended at the tail.
    pub fn insert(&mut self, hash: u64, key: u64, value: V) -> (old_v: Option<V>)
        requires
            old(self).well_formed(),
        ensures
            final(self).well_formed(),
            final(self)@ == old(self)@.insert(key, (hash, value)),
            old_v == if old(self)@.dom().contains(key) {
                Some(old(self)@[key].1)
            } else {
                None::<V>
            },
            final(self).spec_len() == old(self).spec_len() + if old(self)@.dom().contains(key) {
                0int
            } else {
                1int
            },
    {
        let head = self.head.take();
        let (new_head, old_v) = Self::insert_in(head, hash, key, value);
        self.head = new_head;
        old_v
    }

    fn insert_in(n: Option<Box<Node<V>>>, hash: u64, key: u64, value: V) -> (res: (
        Option<Box<Node<V>>>,
        Option<V>,
    ))
        requires
            lwf(n),
        ensures
            lwf(res.0),
            lmap(res.0) == lmap(n).insert(key, (hash, value)),
            res.1 == if lmap(n).dom().contains(key) {
                Some(lmap(n)[key].1)
            } else {
                None::<V>
            },
            lcnt(res.0) == lcnt(n) + if lmap(n).dom().contains(key) {
                0int
            } else {
                1int
            },
        decreases n,
    {
        match n {
            None => {
                let node = Box::new(Node { hash, key, value, next: None });
                proof {
                    assert(lmap(Some(node)) =~= lmap(None::<Box<Node<V>>>).insert(
                        key,
                        (hash, value),
                    ));
                }
                (Some(node), None)
            },
            Some(mut node) => {
                if node.key == key {
                    let mut value = value;
                    core::mem::swap(&mut node.value, &mut value);
                    node.hash = hash;
                    proof {
                        assert(lmap(Some(node)) =~= lmap(node.next).insert(
                            key,
                            (hash, node.value),
                        ));
                    }
                    (Some(node), Some(value))
                } else {
                    let next = node.next.take();
                    let (new_next, old_v) = Self::insert_in(next, hash, key, value);
                    node.next = new_next;
                    proof {
                        assert(lmap(Some(node)) =~= lmap(next).insert(key, (hash, value)).insert(
                            node.key,
                            (node.hash, node.value),
                        ));
                    }
                    (Some(node), old_v)
                }
            },
        }
    }

    /// Removes the entry with the given key, returning its key and value;
    /// the rest of the chain keeps its relative order.
    pub fn remove_entry(&mut self, key: u64) -> (r: Option<(u64, V)>)
        requires
            old(self).well_formed(),
        ensures
            final(self).well_formed(),
            final(self)@ == old(self)@.remove(key),
            r == if old(self)@.dom().contains(key) {
                Some((key, old(self)@[key].1))
            } else {
                None::<(u64, V)>
            },
            final(self).spec_len() == old(self).spec_len() - if old(self)@.dom().contains(key) {
                1int
            } else {
                0int
            },
    {
        let head = self.head.take();
        let (new_head, r) = Self::remove_in(head, key);
        self.head = new_head;
        r
    }

    fn remove_in(n: Option<Box<Node<V>>>, key: u64) -> (res: (
        Option<Box<Node<V>>>,
        Option<(u64, V)>,
    ))
        requires
            lwf(n),
        ensures
            lwf(res.0),
            lmap(res.0) == lmap(n).remove(key),
            res.1 == if lmap(n).dom().contains(key) {
                Some((key, lmap(n)[key].1))
            } else {
                None::<(u64, V)>
            },
            lcnt(res.0) == lcnt(n) - if lmap(n).dom().contains(key) {
                1int
            } else {
                0int
            },
        decreases n,
    {
        match n {
            None => {
                proof {
                    assert(lmap(None::<Box<Node<V>>>) =~= lmap(None::<Box<Node<V>>>).remove(key));
                }
                (None, None)
            },
            Some(mut node) => {
                if node.key == key {
                    proof {
                        assert(lmap(node.next) =~= lmap(Some(node)).remove(key));
                    }
                    (node.next, Some((node.key, node.value)))
                } else {
                    let next = node.next.take();
                    let (new_next, r) = Self::remove_in(next, key);
                    node.next = new_next;
                    proof {
                        assert(lmap(Some(node)) =~= lmap(next).remove(key).insert(
                            node.key,
                            (node.hash, node.value),
                        ));
                        assert(lmap(Some(node)) =~= lmap(next).insert(
                            node.key,
                            (node.hash, node.value),
                        ).remove(key));
                    }
                    (Some(node), r)
                }
            },
        }
    }

    /// Consumes the chain, handing every entry out as an owned (hash, key,
    /// value) triple; each entry appears exactly once.
    pub fn into_entries(self) -> (out: Vec<(u64, u64, V)>)
        requires
            self.well_formed(),
        ensures
            triples_kmap(out@) == self@,
            keys_distinct(out@),
            out@.len() == self.spec_len(),
    {
        let ghost orig = lmap(self.head);
        let ghost orig_cnt = lcnt(self.head);
        let mut rest = self.head;
        let mut out: Vec<(u64, u64, V)> = Vec::new();
        while rest.is_some()
            invariant
                lwf(rest),
                triples_kmap(out@).union_prefer_right(lmap(rest)) == orig,
                forall|i: int| 0 <= i < out@.len() ==> !lmap(rest).dom().contains(
                    #[trigger] out@[i].1,
                ),
                keys_distinct(out@),
                out@.len() + lcnt(rest) == orig_cnt,
            decreases lcnt(rest),
        {
            let node = rest.take().unwrap();
            let ghost prev = out@;
            proof {
                assert(lmap(Some(node)).dom().contains(node.key));
                assert(!lmap(node.next).dom().contains(node.key));
            }
            out.push((node.hash, node.key, node.value));
            rest = node.next;
            proof {
                assert(out@.drop_last() =~= prev);
                assert(triples_kmap(out@).union_prefer_right(lmap(rest)) =~= orig);
            }
        }
        proof {
            assert(triples_kmap(out@).union_prefer_right(lmap(rest)) =~= triples_kmap(out@));
        }
        out
    }
}

} // verus!
