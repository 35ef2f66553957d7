//! A search bucket: a binary search tree over (hash, key) pairs, ordered
//! lexicographically, with the classical height-balance discipline — for
//! every node the heights of its two subtrees differ by at most one, which
//! bounds every operation to logarithmically many comparisons. Entries with
//! equal hash are told apart by the key, so the order is total.

use crate::entries::pairs_distinct;
use crate::entries::triples_pmap;
use vstd::prelude::*;
use vstd::set_lib::lemma_len_subset;

verus! {

broadcast use vstd::set::group_set_axioms, vstd::map_lib::lemma_union_dom;

#[derive(Debug)]
struct Node<V> {
    hash: u64,
    key: u64,
    value: V,
    height: usize,
    left: Option<Box<Node<V>>>,
    right: Option<Box<Node<V>>>,
}

/// A height-balanced binary search tree of (hash, key, value) entries.
#[derive(Debug)]
pub struct AvlTree<V> {
    root: Option<Box<Node<V>>>,
}

/// Lexicographic order on (hash, key) pairs.
spec fn pair_lt(a: (u64, u64), b: (u64, u64)) -> bool {
    a.0 < b.0 || (a.0 == b.0 && a.1 < b.1)
}

/// The larger of two naturals.
spec fn max2(a: nat, b: nat) -> nat {
    if a >= b {
        a
    } else {
        b
    }
}

spec fn pmap<V>(n: Option<Box<Node<V>>>) -> Map<(u64, u64), V>
    decreases n,
{
    match n {
        None => Map::empty(),
        Some(node) => pmap(node.left).union_prefer_right(pmap(node.right)).insert(
            (node.hash, node.key),
            node.value,
        ),
    }
}

spec fn hgt<V>(n: Option<Box<Node<V>>>) -> nat
    decreases n,
{
    match n {
        None => 0,
        Some(node) => 1 + max2(hgt(node.left), hgt(node.right)),
    }
}

spec fn bal<V>(n: Option<Box<Node<V>>>) -> bool
    decreases n,
{
    match n {
        None => true,
        Some(node) => {
            &&& bal(node.left)
            &&& bal(node.right)
            &&& hgt(node.left) <= hgt(node.right) + 1
            &&& hgt(node.right) <= hgt(node.left) + 1
        },
    }
}

spec fn twf<V>(n: Option<Box<Node<V>>>) -> bool
    decreases n,
{
    match n {
        None => true,
        Some(node) => {
            &&& twf(node.left)
            &&& twf(node.right)
            &&& forall|p: (u64, u64)|
                #[trigger] pmap(node.left).dom().contains(p) ==> pair_lt(
                    p,
                    (node.hash, node.key),
                )
            &&& forall|p: (u64, u64)|
                #[trigger] pmap(node.right).dom().contains(p) ==> pair_lt(
                    (node.hash, node.key),
                    p,
                )
            &&& node.height == 1 + max2(hgt(node.left), hgt(node.right))
            &&& hgt(node.left) <= hgt(node.right) + 1
            &&& hgt(node.right) <= hgt(node.left) + 1
        },
    }
}

proof fn lemma_pmap_finite<V>(n: Option<Box<Node<V>>>)
    ensures
        pmap(n).dom().finite(),
    decreases n,
{
    match n {
        None => {
            assert(pmap(n).dom() =~= Set::<(u64, u64)>::empty());
        },
        Some(node) => {
            lemma_pmap_finite(node.left);
            lemma_pmap_finite(node.right);
            assert(pmap(n).dom() =~= pmap(node.left).dom().union(pmap(node.right).dom()).insert(
                (node.hash, node.key),
            ));
        },
    }
}

proof fn lemma_hgt_le_card<V>(n: Option<Box<Node<V>>>)
    requires
        twf(n),
    ensures
        hgt(n) <= pmap(n).dom().len(),
    decreases n,
{
    match n {
        None => {},
        Some(node) => {
            lemma_hgt_le_card(node.left);
            lemma_hgt_le_card(node.right);
            lemma_pmap_finite(node.left);
            lemma_pmap_finite(node.right);
            lemma_pmap_finite(n);
            let p = (node.hash, node.key);
            if pmap(node.left).dom().contains(p) {
                assert(pair_lt(p, p));
            }
            if pmap(node.right).dom().contains(p) {
                assert(pair_lt(p, p));
            }
            if hgt(node.left) >= hgt(node.right) {
                vstd::set::axiom_set_insert_len(pmap(node.left).dom(), p);
                lemma_len_subset(pmap(node.left).dom().insert(p), pmap(n).dom());
            } else {
                vstd::set::axiom_set_insert_len(pmap(node.right).dom(), p);
                lemma_len_subset(pmap(node.right).dom().insert(p), pmap(n).dom());
            }
        },
    }
}

fn pair_less(h1: u64, k1: u64, h2: u64, k2: u64) -> (r: bool)
    ensures
        r == pair_lt((h1, k1), (h2, k2)),
{
    h1 < h2 || (h1 == h2 && k1 < k2)
}

impl<V> View for AvlTree<V> {
    type V = Map<(u64, u64), V>;

    closed spec fn view(&self) -> Map<(u64, u64), V> {
        pmap(self.root)
    }
}

impl<V> AvlTree<V> {
    /// The tree is ordered by (hash, key), every node's stored height is
    /// its real height, and every node is balanced.
    pub closed spec fn well_formed(self) -> bool {
        twf(self.root)
    }

    /// For every node the heights of the two subtrees differ by at most one.
    pub closed spec fn balanced(self) -> bool {
        bal(self.root)
    }

    /// The tree holds finitely many entries.
    pub proof fn lemma_view_finite(self)
        ensures
            self@.dom().finite(),
    {
        lemma_pmap_finite(self.root);
    }

    /// A well-formed tree is balanced at every node: the height-balance
    /// discipline is maintained through every insertion and removal.
    pub proof fn lemma_well_formed_balanced(self)
        requires
            self.well_formed(),
        ensures
            self.balanced(),
    {
        Self::lemma_twf_bal(self.root);
    }

    proof fn lemma_twf_bal(n: Option<Box<Node<V>>>)
        requires
            twf(n),
        ensures
            bal(n),
        decreases n,
    {
        match n {
            None => {},
            Some(node) => {
                Self::lemma_twf_bal(node.left);
                Self::lemma_twf_bal(node.right);
            },
        }
    }

    /// Creates an empty tree.
    pub fn new() -> (t: Self)
        ensures
            t.well_formed(),
            t@ == Map::<(u64, u64), V>::empty(),
    {
        AvlTree { root: None }
    }

    /// Whether the tree holds no entry.
    pub fn is_empty(&self) -> (r: bool)
        ensures
            r <==> self@ == Map::<(u64, u64), V>::empty(),
    {
        match &self.root {
            None => true,
            Some(node) => {
                proof {
                    assert(self@.dom().contains((node.hash, node.key)));
                }
                false
            },
        }
    }

    fn height_of(n: &Option<Box<Node<V>>>) -> (h: usize)
        requires
            twf(*n),
        ensures
            h == hgt(*n),
    {
        match n {
            None => 0,
            Some(node) => node.height,
        }
    }

    /// Builds a node from parts whose heights differ by at most one.
    fn make_node(
        left: Option<Box<Node<V>>>,
        hash: u64,
        key: u64,
        value: V,
        right: Option<Box<Node<V>>>,
    ) -> (res: Box<Node<V>>)
        requires
            twf(left),
            twf(right),
            forall|p: (u64, u64)|
                #[trigger] pmap(left).dom().contains(p) ==> pair_lt(p, (hash, key)),
            forall|p: (u64, u64)|
                #[trigger] pmap(right).dom().contains(p) ==> pair_lt((hash, key), p),
            hgt(left) <= hgt(right) + 1,
            hgt(right) <= hgt(left) + 1,
            1 + max2(hgt(left), hgt(right)) <= usize::MAX,
        ensures
            twf(Some(res)),
            pmap(Some(res)) == pmap(left).union_prefer_right(pmap(right)).insert(
                (hash, key),
                value,
            ),
            hgt(Some(res)) == 1 + max2(hgt(left), hgt(right)),
    {
        let hl = Self::height_of(&left);
        let hr = Self::height_of(&right);
        let h = 1 + if hl >= hr {
            hl
        } else {
            hr
        };
        Box::new(Node { hash, key, value, height: h, left, right })
    }

    /// Rebuilds a node whose subtrees' heights may differ by up to two,
    /// rotating as needed to restore balance.
    fn rebalance(
        left: Option<Box<Node<V>>>,
        hash: u64,
        key: u64,
        value: V,
        right: Option<Box<Node<V>>>,
    ) -> (res: Box<Node<V>>)
        requires
            twf(left),
            twf(right),
            forall|p: (u64, u64)|
                #[trigger] pmap(left).dom().contains(p) ==> pair_lt(p, (hash, key)),
            forall|p: (u64, u64)|
                #[trigger] pmap(right).dom().contains(p) ==> pair_lt((hash, key), p),
            hgt(left) <= hgt(right) + 2,
            hgt(right) <= hgt(left) + 2,
            1 + max2(hgt(left), hgt(right)) <= usize::MAX,
        ensures
            twf(Some(res)),
            pmap(Some(res)) == pmap(left).union_prefer_right(pmap(right)).insert(
                (hash, key),
                value,
            ),
            max2(hgt(left), hgt(right)) <= hgt(Some(res)),
            hgt(Some(res)) <= 1 + max2(hgt(left), hgt(right)),
            (hgt(left) <= hgt(right) + 1 && hgt(right) <= hgt(left) + 1) ==> hgt(Some(res)) == 1
                + max2(hgt(left), hgt(right)),
    {
        let hl = Self::height_of(&left);
        let hr = Self::height_of(&right);
        if hl > hr + 1 {
            // The left subtree is two levels taller; it cannot be empty.
            proof {
                if left is None {
                    assert(hgt(left) == 0);
                }
            }
            let mut l = left.unwrap();
            let ghost l0 = *l;
            proof {
                assert(left == Some(l));
                assert(pmap(left) == pmap(l0.left).union_prefer_right(pmap(l0.right)).insert(
                    (l0.hash, l0.key),
                    l0.value,
                ));
                assert(pmap(left).dom().contains((l0.hash, l0.key)));
            }
            let ll = l.left.take();
            let lr = l.right.take();
            let hll = Self::height_of(&ll);
            let hlr = Self::height_of(&lr);
            let lh = l.hash;
            let lk = l.key;
            let lv = l.value;
            if hll >= hlr {
                // Single right rotation: the old root becomes the right
                // child of its left child.
                proof {
                    assert forall|p: (u64, u64)| #[trigger] pmap(lr).dom().contains(p)
                        implies pair_lt(p, (hash, key)) by {
                        assert(pmap(left).dom().contains(p));
                    }
                }
                let inner = Self::make_node(lr, hash, key, value, right);
                proof {
                    assert forall|p: (u64, u64)| #[trigger] pmap(Some(inner)).dom().contains(p)
                        implies pair_lt((lh, lk), p) by {
                        if p == (hash, key) {
                        } else if pmap(l0.right).dom().contains(p) {
                        } else {
                            assert(pmap(right).dom().contains(p));
                            assert(pair_lt((lh, lk), (hash, key)));
                        }
                    }
                }
                let res = Self::make_node(ll, lh, lk, lv, Some(inner));
                proof {
                    assert(pmap(Some(res)) =~= pmap(left).union_prefer_right(pmap(right)).insert(
                        (hash, key),
                        value,
                    ));
                }
                res
            } else {
                // Double rotation: the left child's right child becomes the
                // new root.
                proof {
                    if lr is None {
                        assert(hgt(lr) == 0);
                    }
                }
                let mut lrn = lr.unwrap();
                let ghost lr0 = *lrn;
                proof {
                    assert(lr == Some(lrn));
                    assert(pmap(lr) == pmap(lr0.left).union_prefer_right(pmap(lr0.right)).insert(
                        (lr0.hash, lr0.key),
                        lr0.value,
                    ));
                    assert(pmap(lr).dom().contains((lr0.hash, lr0.key)));
                    assert(pmap(left).dom().contains((lr0.hash, lr0.key)));
                    assert(twf(lr));
                    assert(twf(Some(lrn)));
                    assert(twf(lr0.left));
                    assert(twf(lr0.right));
                }
                let lrl = lrn.left.take();
                let lrr = lrn.right.take();
                proof {
                    assert forall|p: (u64, u64)| #[trigger] pmap(lrl).dom().contains(p)
                        implies pair_lt((lh, lk), p) by {
                        assert(pmap(lr).dom().contains(p));
                    }
                }
                let inner_l = Self::make_node(ll, lh, lk, lv, lrl);
                proof {
                    assert forall|p: (u64, u64)| #[trigger] pmap(lrr).dom().contains(p)
                        implies pair_lt(p, (hash, key)) by {
                        assert(pmap(lr).dom().contains(p));
                        assert(pmap(left).dom().contains(p));
                    }
                }
                let inner_r = Self::make_node(lrr, hash, key, value, right);
                proof {
                    assert forall|p: (u64, u64)| #[trigger] pmap(Some(inner_l)).dom().contains(p)
                        implies pair_lt(p, (lr0.hash, lr0.key)) by {
                        if p == (lh, lk) {
                        } else if pmap(lr0.left).dom().contains(p) {
                        } else {
                            assert(pmap(l0.left).dom().contains(p));
                            assert(pair_lt(p, (lh, lk)));
                        }
                    }
                    assert forall|p: (u64, u64)| #[trigger] pmap(Some(inner_r)).dom().contains(p)
                        implies pair_lt((lr0.hash, lr0.key), p) by {
                        if p == (hash, key) {
                            assert(pair_lt((lr0.hash, lr0.key), (hash, key)));
                        } else if pmap(lr0.right).dom().contains(p) {
                        } else {
                            assert(pmap(right).dom().contains(p));
                            assert(pair_lt((lr0.hash, lr0.key), (hash, key)));
                        }
                    }
                }
                let lrv = lrn.value;
                let res = Self::make_node(Some(inner_l), lrn.hash, lrn.key, lrv, Some(inner_r));
                proof {
                    assert(pmap(Some(res)) =~= pmap(left).union_prefer_right(pmap(right)).insert(
                        (hash, key),
                        value,
                    ));
                }
                res
            }
        } else if hr > hl + 1 {
            // The right subtree is two levels taller; mirror image.
            proof {
                if right is None {
                    assert(hgt(right) == 0);
                }
            }
            let mut r = right.unwrap();
            let ghost r0 = *r;
            proof {
                assert(right == Some(r));
                assert(pmap(right) == pmap(r0.left).union_prefer_right(pmap(r0.right)).insert(
                    (r0.hash, r0.key),
                    r0.value,
                ));
                assert(pmap(right).dom().contains((r0.hash, r0.key)));
            }
            let rl = r.left.take();
            let rr = r.right.take();
            let hrl = Self::height_of(&rl);
            let hrr = Self::height_of(&rr);
            let rh = r.hash;
            let rk = r.key;
            let rv = r.value;
            if hrr >= hrl {
                // Single left rotation.
                proof {
                    assert forall|p: (u64, u64)| #[trigger] pmap(rl).dom().contains(p)
                        implies pair_lt((hash, key), p) by {
                        assert(pmap(right).dom().contains(p));
                    }
                }
                let inner = Self::make_node(left, hash, key, value, rl);
                proof {
                    assert forall|p: (u64, u64)| #[trigger] pmap(Some(inner)).dom().contains(p)
                        implies pair_lt(p, (rh, rk)) by {
                        if p == (hash, key) {
                        } else if pmap(r0.left).dom().contains(p) {
                        } else {
                            assert(pmap(left).dom().contains(p));
                            assert(pair_lt((hash, key), (rh, rk)));
                        }
                    }
                }
                let res = Self::make_node(Some(inner), rh, rk, rv, rr);
                proof {
                    assert(pmap(Some(res)) =~= pmap(left).union_prefer_right(pmap(right)).insert(
                        (hash, key),
                        value,
                    ));
                }
                res
            } else {
                // Double rotation through the right child's left child.
                proof {
                    if rl is None {
                        assert(hgt(rl) == 0);
                    }
                }
                let mut rln = rl.unwrap();
                let ghost rl0 = *rln;
                proof {
                    assert(rl == Some(rln));
                    assert(pmap(rl) == pmap(rl0.left).union_prefer_right(pmap(rl0.right)).insert(
                        (rl0.hash, rl0.key),
                        rl0.value,
                    ));
                    assert(pmap(rl).dom().contains((rl0.hash, rl0.key)));
                    assert(pmap(right).dom().contains((rl0.hash, rl0.key)));
                    assert(twf(rl));
                    assert(twf(Some(rln)));
                    assert(twf(rl0.left));
                    assert(twf(rl0.right));
                }
                let rll = rln.left.take();
                let rlr = rln.right.take();
                proof {
                    assert forall|p: (u64, u64)| #[trigger] pmap(rll).dom().contains(p)
                        implies pair_lt((hash, key), p) by {
                        assert(pmap(rl).dom().contains(p));
                        assert(pmap(right).dom().contains(p));
                    }
                }
                let inner_l = Self::make_node(left, hash, key, value, rll);
                proof {
                    assert forall|p: (u64, u64)| #[trigger] pmap(rlr).dom().contains(p)
                        implies pair_lt(p, (rh, rk)) by {
                        assert(pmap(rl).dom().contains(p));
                    }
                }
                let inner_r = Self::make_node(rlr, rh, rk, rv, rr);
                proof {
                    assert forall|p: (u64, u64)| #[trigger] pmap(Some(inner_l)).dom().contains(p)
                        implies pair_lt(p, (rl0.hash, rl0.key)) by {
                        if p == (hash, key) {
                            assert(pair_lt((hash, key), (rl0.hash, rl0.key)));
                        } else if pmap(rl0.left).dom().contains(p) {
                        } else {
                            assert(pmap(left).dom().contains(p));
                            assert(pair_lt((hash, key), (rl0.hash, rl0.key)));
                        }
                    }
                    assert forall|p: (u64, u64)| #[trigger] pmap(Some(inner_r)).dom().contains(p)
                        implies pair_lt((rl0.hash, rl0.key), p) by {
                        if p == (rh, rk) {
                        } else if pmap(rl0.right).dom().contains(p) {
                        } else {
                            assert(pmap(r0.right).dom().contains(p));
                            assert(pair_lt((rl0.hash, rl0.key), (rh, rk)));
                        }
                    }
                }
                let rlv = rln.value;
                let res = Self::make_node(Some(inner_l), rln.hash, rln.key, rlv, Some(inner_r));
                proof {
                    assert(pmap(Some(res)) =~= pmap(left).union_prefer_right(pmap(right)).insert(
                        (hash, key),
                        value,
                    ));
                }
                res
            }
        } else {
            Self::make_node(left, hash, key, value, right)
        }
    }

    fn insert_at(n: Option<Box<Node<V>>>, hash: u64, key: u64, value: V) -> (res: (
        Option<Box<Node<V>>>,
        Option<V>,
    ))
        requires
            twf(n),
            hgt(n) + 1 <= usize::MAX,
        ensures
            twf(res.0),
            pmap(res.0) == pmap(n).insert((hash, key), value),
            res.1 == if pmap(n).dom().contains((hash, key)) {
                Some(pmap(n)[(hash, key)])
            } else {
                None::<V>
            },
            hgt(n) <= hgt(res.0),
            hgt(res.0) <= hgt(n) + 1,
            res.1 is Some ==> hgt(res.0) == hgt(n),
        decreases n,
    {
        match n {
            None => {
                let node = Box::new(
                    Node { hash, key, value, height: 1, left: None, right: None },
                );
                proof {
                    assert(pmap(Some(node)) =~= pmap(None::<Box<Node<V>>>).insert(
                        (hash, key),
                        value,
                    ));
                }
                (Some(node), None)
            },
            Some(mut node) => {
                let ghost n0 = *node;
                proof {
                    assert(n == Some(node));
                    assert(pmap(n) == pmap(n0.left).union_prefer_right(pmap(n0.right)).insert(
                        (n0.hash, n0.key),
                        n0.value,
                    ));
                }
                if hash == node.hash && key == node.key {
                    let ghost newv = value;
                    let mut value = value;
                    core::mem::swap(&mut node.value, &mut value);
                    proof {
                        assert(pmap(Some(node)) =~= pmap(n).insert((hash, key), newv));
                        assert(pmap(n).dom().contains((hash, key)));
                        assert(pmap(n)[(hash, key)] == value);
                    }
                    (Some(node), Some(value))
                } else if pair_less(hash, key, node.hash, node.key) {
                    let l = node.left.take();
                    let (nl, old_v) = Self::insert_at(l, hash, key, value);
                    proof {
                        assert forall|p: (u64, u64)| #[trigger] pmap(nl).dom().contains(p)
                            implies pair_lt(p, (n0.hash, n0.key)) by {
                            if p != (hash, key) {
                                assert(pmap(n0.left).dom().contains(p));
                            }
                        }
                        if pmap(n0.right).dom().contains((hash, key)) {
                            assert(pair_lt((n0.hash, n0.key), (hash, key)));
                        }
                    }
                    let nv = node.value;
                    let r = node.right.take();
                    let res = Self::rebalance(nl, node.hash, node.key, nv, r);
                    proof {
                        assert(pmap(Some(res)) =~= pmap(n).insert((hash, key), value));
                        assert(pmap(n).dom().contains((hash, key)) == pmap(n0.left).dom().contains(
                            (hash, key),
                        ));
                        if pmap(n0.left).dom().contains((hash, key)) {
                            assert(pmap(n)[(hash, key)] == pmap(n0.left)[(hash, key)]);
                        }
                    }
                    (Some(res), old_v)
                } else {
                    let r = node.right.take();
                    let (nr, old_v) = Self::insert_at(r, hash, key, value);
                    proof {
                        assert(pair_lt((n0.hash, n0.key), (hash, key)));
                        assert forall|p: (u64, u64)| #[trigger] pmap(nr).dom().contains(p)
                            implies pair_lt((n0.hash, n0.key), p) by {
                            if p != (hash, key) {
                                assert(pmap(n0.right).dom().contains(p));
                            }
                        }
                        if pmap(n0.left).dom().contains((hash, key)) {
                            assert(pair_lt((hash, key), (n0.hash, n0.key)));
                        }
                    }
                    let nv = node.value;
                    let l = node.left.take();
                    let res = Self::rebalance(l, node.hash, node.key, nv, nr);
                    proof {
                        assert(pmap(Some(res)) =~= pmap(n).insert((hash, key), value));
                        assert(pmap(n).dom().contains((hash, key)) == pmap(n0.right).dom().contains(
                            (hash, key),
                        ));
                        if pmap(n0.right).dom().contains((hash, key)) {
                            assert(pmap(n)[(hash, key)] == pmap(n0.right)[(hash, key)]);
                        }
                    }
                    (Some(res), old_v)
                }
            },
        }
    }

    /// Inserts the entry under its (hash, key) pair. If the pair is already
    /// present its value is replaced and the old value returned.
    pub fn insert(&mut self, hash: u64, key: u64, value: V) -> (old_v: Option<V>)
        requires
            old(self).well_formed(),
            old(self)@.dom().len() < usize::MAX,
        ensures
            final(self).well_formed(),
            final(self)@ == old(self)@.insert((hash, key), value),
            old_v == if old(self)@.dom().contains((hash, key)) {
                Some(old(self)@[(hash, key)])
            } else {
                None::<V>
            },
    {
        proof {
            lemma_hgt_le_card(old(self).root);
        }
        let root = self.root.take();
        let (new_root, old_v) = Self::insert_at(root, hash, key, value);
        self.root = new_root;
        old_v
    }

    /// Looks the (hash, key) pair up; on a hit returns the stored key and
    /// value.
    pub fn get_key_value(&self, hash: u64, key: u64) -> (r: Option<(&u64, &V)>)
        requires
            self.well_formed(),
        ensures
            match r {
                Some(kv) => self@.dom().contains((hash, key)) && *kv.0 == key && *kv.1 == self@[
                    (hash, key)
                ],
                None => !self@.dom().contains((hash, key)),
            },
    {
        Self::get_at(&self.root, hash, key)
    }

    fn get_at(n: &Option<Box<Node<V>>>, hash: u64, key: u64) -> (r: Option<(&u64, &V)>)
        requires
            twf(*n),
        ensures
            match r {
                Some(kv) => pmap(*n).dom().contains((hash, key)) && *kv.0 == key && *kv.1 == pmap(
                    *n,
                )[(hash, key)],
                None => !pmap(*n).dom().contains((hash, key)),
            },
        decreases *n,
    {
        match n {
            None => None,
            Some(node) => {
                if hash == node.hash && key == node.key {
                    Some((&node.key, &node.value))
                } else if pair_less(hash, key, node.hash, node.key) {
                    proof {
                        if pmap(node.right).dom().contains((hash, key)) {
                            assert(pair_lt((node.hash, node.key), (hash, key)));
                        }
                    }
                    Self::get_at(&node.left, hash, key)
                } else {
                    proof {
                        if pmap(node.left).dom().contains((hash, key)) {
                            assert(pair_lt((hash, key), (node.hash, node.key)));
                        }
                    }
                    Self::get_at(&node.right, hash, key)
                }
            },
        }
    }

    /// Looks the (hash, key) pair up and hands out the value to change in
    /// place; the tree afterwards holds whatever the caller wrote through
    /// it.
    pub fn get_mut(&mut self, hash: u64, key: u64) -> (r: Option<&mut V>)
        requires
            old(self).well_formed(),
        ensures
            match r {
                Some(v) => old(self)@.dom().contains((hash, key)) && *v == old(self)@[
                    (hash, key)
                ] && final(self).well_formed() && final(self)@ == old(self)@.insert(
                    (hash, key),
                    *final(v),
                ),
                None => !old(self)@.dom().contains((hash, key)) && *final(self) == *old(self),
            },
    {
        Self::get_mut_at(&mut self.root, hash, key)
    }

    fn get_mut_at(n: &mut Option<Box<Node<V>>>, hash: u64, key: u64) -> (r: Option<&mut V>)
        requires
            twf(*old(n)),
        ensures
            match r {
                Some(v) => pmap(*old(n)).dom().contains((hash, key)) && *v == pmap(*old(n))[
                    (hash, key)
                ] && twf(*final(n)) && hgt(*final(n)) == hgt(*old(n)) && pmap(*final(n)) == pmap(
                    *old(n)).insert((hash, key), *final(v)),
                None => !pmap(*old(n)).dom().contains((hash, key)) && *final(n) == *old(n),
            },
        decreases *old(n),
    {
        match n {
            None => None,
            Some(node) => {
                if hash == node.hash && key == node.key {
                    proof {
                        if pmap(node.left).dom().contains((hash, key)) {
                            assert(pair_lt((hash, key), (hash, key)));
                        }
                        if pmap(node.right).dom().contains((hash, key)) {
                            assert(pair_lt((hash, key), (hash, key)));
                        }
                    }
                    Some(&mut node.value)
                } else if pair_less(hash, key, node.hash, node.key) {
                    proof {
                        if pmap(node.right).dom().contains((hash, key)) {
                            assert(pair_lt((node.hash, node.key), (hash, key)));
                        }
                    }
                    Self::get_mut_at(&mut node.left, hash, key)
                } else {
                    proof {
                        if pmap(node.left).dom().contains((hash, key)) {
                            assert(pair_lt((hash, key), (node.hash, node.key)));
                        }
                    }
                    Self::get_mut_at(&mut node.right, hash, key)
                }
            },
        }
    }

    fn remove_leftmost(n: Box<Node<V>>) -> (res: (Option<Box<Node<V>>>, (u64, u64, V)))
        requires
            twf(Some(n)),
        ensures
            twf(res.0),
            pmap(Some(n)).dom().contains((res.1.0, res.1.1)),
            pmap(Some(n))[(res.1.0, res.1.1)] == res.1.2,
            forall|p: (u64, u64)|
                #[trigger] pmap(res.0).dom().contains(p) ==> pair_lt((res.1.0, res.1.1), p),
            pmap(res.0) == pmap(Some(n)).remove((res.1.0, res.1.1)),
            hgt(res.0) <= hgt(Some(n)),
            hgt(Some(n)) <= hgt(res.0) + 1,
        decreases n,
    {
        let ghost n0 = *n;
        proof {
            assert(pmap(Some(n)) == pmap(n0.left).union_prefer_right(pmap(n0.right)).insert(
                (n0.hash, n0.key),
                n0.value,
            ));
        }
        let mut node = n;
        match node.left.take() {
            None => {
                let r = node.right;
                proof {
                    if pmap(n0.right).dom().contains((n0.hash, n0.key)) {
                        assert(pair_lt((n0.hash, n0.key), (n0.hash, n0.key)));
                    }
                    assert(pmap(r) =~= pmap(Some(n)).remove((n0.hash, n0.key)));
                }
                (r, (node.hash, node.key, node.value))
            },
            Some(l) => {
                let (nl, t) = Self::remove_leftmost(l);
                proof {
                    assert(pmap(n0.left).dom().contains((t.0, t.1)));
                    assert(pair_lt((t.0, t.1), (n0.hash, n0.key)));
                    assert forall|p: (u64, u64)| #[trigger] pmap(nl).dom().contains(p)
                        implies pair_lt(p, (n0.hash, n0.key)) by {
                        assert(pmap(n0.left).dom().contains(p));
                    }
                }
                let nv = node.value;
                let r = node.right.take();
                let res = Self::rebalance(nl, node.hash, node.key, nv, r);
                proof {
                    assert(pmap(Some(res)) =~= pmap(Some(n)).remove((t.0, t.1)));
                    assert forall|p: (u64, u64)| #[trigger] pmap(Some(res)).dom().contains(p)
                        implies pair_lt((t.0, t.1), p) by {
                        if p == (n0.hash, n0.key) {
                        } else if pmap(nl).dom().contains(p) {
                        } else {
                            assert(pmap(n0.right).dom().contains(p));
                            assert(pair_lt((t.0, t.1), (n0.hash, n0.key)));
                        }
                    }
                }
                (Some(res), t)
            },
        }
    }

    fn remove_at(n: Option<Box<Node<V>>>, hash: u64, key: u64) -> (res: (
        Option<Box<Node<V>>>,
        Option<(u64, V)>,
    ))
        requires
            twf(n),
        ensures
            twf(res.0),
            pmap(res.0) == pmap(n).remove((hash, key)),
            res.1 == if pmap(n).dom().contains((hash, key)) {
                Some((key, pmap(n)[(hash, key)]))
            } else {
                None::<(u64, V)>
            },
            hgt(res.0) <= hgt(n),
            hgt(n) <= hgt(res.0) + 1,
        decreases n,
    {
        match n {
            None => {
                proof {
                    assert(pmap(None::<Box<Node<V>>>) =~= pmap(None::<Box<Node<V>>>).remove(
                        (hash, key),
                    ));
                }
                (None, None)
            },
            Some(mut node) => {
                let ghost n0 = *node;
                proof {
                    assert(n == Some(node));
                    assert(pmap(n) == pmap(n0.left).union_prefer_right(pmap(n0.right)).insert(
                        (n0.hash, n0.key),
                        n0.value,
                    ));
                }
                if hash == node.hash && key == node.key {
                    proof {
                        if pmap(n0.left).dom().contains((hash, key)) {
                            assert(pair_lt((hash, key), (hash, key)));
                        }
                        if pmap(n0.right).dom().contains((hash, key)) {
                            assert(pair_lt((hash, key), (hash, key)));
                        }
                    }
                    match node.left.take() {
                        None => {
                            let r = node.right;
                            proof {
                                assert(pmap(r) =~= pmap(n).remove((hash, key)));
                            }
                            (r, Some((node.key, node.value)))
                        },
                        Some(l) => {
                            match node.right.take() {
                                None => {
                                    proof {
                                        assert(pmap(Some(l)) =~= pmap(n).remove((hash, key)));
                                    }
                                    (Some(l), Some((node.key, node.value)))
                                },
                                Some(r) => {
                                    // Two children: replace this entry with
                                    // the smallest of the right subtree and
                                    // remove that entry from its old place.
                                    let (nr, t) = Self::remove_leftmost(r);
                                    proof {
                                        assert(pmap(n0.right).dom().contains((t.0, t.1)));
                                        assert(pair_lt((n0.hash, n0.key), (t.0, t.1)));
                                        assert forall|p: (u64, u64)|
                                            #[trigger] pmap(Some(l)).dom().contains(p)
                                            implies pair_lt(p, (t.0, t.1)) by {
                                            assert(pair_lt(p, (n0.hash, n0.key)));
                                        }
                                    }
                                    let res = Self::rebalance(Some(l), t.0, t.1, t.2, nr);
                                    proof {
                                        assert(pmap(Some(res)) =~= pmap(n).remove((hash, key)));
                                    }
                                    (Some(res), Some((node.key, node.value)))
                                },
                            }
                        },
                    }
                } else if pair_less(hash, key, node.hash, node.key) {
                    proof {
                        if pmap(n0.right).dom().contains((hash, key)) {
                            assert(pair_lt((n0.hash, n0.key), (hash, key)));
                        }
                    }
                    let l = node.left.take();
                    let (nl, r_v) = Self::remove_at(l, hash, key);
                    proof {
                        assert forall|p: (u64, u64)| #[trigger] pmap(nl).dom().contains(p)
                            implies pair_lt(p, (n0.hash, n0.key)) by {
                            assert(pmap(n0.left).dom().contains(p));
                        }
                    }
                    let nv = node.value;
                    let r = node.right.take();
                    let res = Self::rebalance(nl, node.hash, node.key, nv, r);
                    proof {
                        assert(pmap(Some(res)) =~= pmap(n).remove((hash, key)));
                        assert(pmap(n).dom().contains((hash, key)) == pmap(n0.left).dom().contains(
                            (hash, key),
                        ));
                        if pmap(n0.left).dom().contains((hash, key)) {
                            assert(pmap(n)[(hash, key)] == pmap(n0.left)[(hash, key)]);
                        }
                    }
                    (Some(res), r_v)
                } else {
                    proof {
                        if pmap(n0.left).dom().contains((hash, key)) {
                            assert(pair_lt((hash, key), (n0.hash, n0.key)));
                        }
                    }
                    let r = node.right.take();
                    let (nr, r_v) = Self::remove_at(r, hash, key);
                    proof {
                        assert forall|p: (u64, u64)| #[trigger] pmap(nr).dom().contains(p)
                            implies pair_lt((n0.hash, n0.key), p) by {
                            assert(pmap(n0.right).dom().contains(p));
                        }
                    }
                    let nv = node.value;
                    let l = node.left.take();
                    let res = Self::rebalance(l, node.hash, node.key, nv, nr);
                    proof {
                        assert(pmap(Some(res)) =~= pmap(n).remove((hash, key)));
                        assert(pmap(n).dom().contains((hash, key)) == pmap(n0.right).dom().contains(
                            (hash, key),
                        ));
                        if pmap(n0.right).dom().contains((hash, key)) {
                            assert(pmap(n)[(hash, key)] == pmap(n0.right)[(hash, key)]);
                        }
                    }
                    (Some(res), r_v)
                }
            },
        }
    }

    /// Removes the entry stored under the (hash, key) pair, returning its
    /// key and value, or nothing if the pair is absent. The smallest entry
    /// of the right subtree takes a removed inner node's place, and balance
    /// is restored on the way back up.
    pub fn remove_entry(&mut self, hash: u64, key: u64) -> (r: Option<(u64, V)>)
        requires
            old(self).well_formed(),
        ensures
            final(self).well_formed(),
            final(self)@ == old(self)@.remove((hash, key)),
            r == if old(self)@.dom().contains((hash, key)) {
                Some((key, old(self)@[(hash, key)]))
            } else {
                None::<(u64, V)>
            },
    {
        let root = self.root.take();
        let (new_root, r) = Self::remove_at(root, hash, key);
        self.root = new_root;
        r
    }

    fn collect(n: Option<Box<Node<V>>>, out: &mut Vec<(u64, u64, V)>)
        requires
            twf(n),
            pairs_distinct(old(out)@),
            forall|i: int|
                0 <= i < old(out)@.len() ==> !pmap(n).dom().contains(
                    (#[trigger] old(out)@[i].0, old(out)@[i].1),
                ),
        ensures
            final(out)@.len() >= old(out)@.len(),
            forall|i: int| 0 <= i < old(out)@.len() ==> final(out)@[i] == old(out)@[i],
            triples_pmap(final(out)@) == triples_pmap(old(out)@).union_prefer_right(pmap(n)),
            pairs_distinct(final(out)@),
            forall|i: int|
                old(out)@.len() <= i < final(out)@.len() ==> pmap(n).dom().contains(
                    (#[trigger] final(out)@[i].0, final(out)@[i].1),
                ),
        decreases n,
    {
        match n {
            None => {
                proof {
                    assert(triples_pmap(out@).union_prefer_right(pmap(None::<Box<Node<V>>>))
                        =~= triples_pmap(out@));
                }
            },
            Some(node) => {
                let ghost m_all = pmap(n);
                let ghost ml = pmap(node.left);
                let ghost mr = pmap(node.right);
                let ghost p = (node.hash, node.key);
                let ghost v0 = node.value;
                proof {
                    assert(n == Some(node));
                    assert(m_all == ml.union_prefer_right(mr).insert(p, v0));
                    if ml.dom().contains(p) {
                        assert(pair_lt(p, p));
                    }
                    if mr.dom().contains(p) {
                        assert(pair_lt(p, p));
                    }
                    assert forall|q: (u64, u64)| #[trigger] ml.dom().contains(q)
                        implies !mr.dom().contains(q) by {
                        if mr.dom().contains(q) {
                            assert(pair_lt(q, p));
                            assert(pair_lt(p, q));
                        }
                    }
                }
                let ghost base = out@;
                let l = node.left;
                Self::collect(l, out);
                let ghost mid = out@;
                out.push((node.hash, node.key, node.value));
                proof {
                    assert(out@.drop_last() =~= mid);
                    assert(triples_pmap(out@) =~= triples_pmap(mid).insert(p, v0));
                    assert forall|i: int| 0 <= i < out@.len() implies !mr.dom().contains(
                        (#[trigger] out@[i].0, out@[i].1),
                    ) by {
                        let q = (out@[i].0, out@[i].1);
                        if i < base.len() {
                            assert(!m_all.dom().contains(q));
                        } else if i < mid.len() {
                            assert(ml.dom().contains(q));
                        } else {
                            assert(q == p);
                        }
                    }
                    assert(pairs_distinct(out@));
                }
                let r = node.right;
                Self::collect(r, out);
                proof {
                    assert(triples_pmap(out@) =~= triples_pmap(base).union_prefer_right(m_all));
                    assert forall|i: int| base.len() <= i < out@.len() implies m_all.dom().contains(
                        (#[trigger] out@[i].0, out@[i].1),
                    ) by {
                        let q = (out@[i].0, out@[i].1);
                        if i < mid.len() {
                            assert(ml.dom().contains(q));
                        } else if i == mid.len() {
                            assert(q == p);
                        } else {
                            assert(mr.dom().contains(q));
                        }
                    }
                }
            },
        }
    }

    /// Consumes the tree, handing every entry out as an owned (hash, key,
    /// value) triple; each entry appears exactly once, in ascending
    /// (hash, key) order of the underlying tree walk.
    pub fn into_entries(self) -> (out: Vec<(u64, u64, V)>)
        requires
            self.well_formed(),
        ensures
            triples_pmap(out@) == self@,
            pairs_distinct(out@),
            forall|i: int|
                0 <= i < out@.len() ==> self@.dom().contains((#[trigger] out@[i].0, out@[i].1)),
    {
        let mut out: Vec<(u64, u64, V)> = Vec::new();
        Self::collect(self.root, &mut out);
        proof {
            assert(triples_pmap(out@) =~= self@);
        }
        out
    }
}

} // verus!
