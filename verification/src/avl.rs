//! A sorted map kept as a binary search tree with unique keys, ordered so
//! that an in-order walk visits keys in descending order, together with
//! iterators for both directions.

use vstd::prelude::*;

verus! {

/// A totally ordered key. The strict order `lt_spec` is what the tree's
/// shape invariant and the comparison method are both held to.
pub trait TreeKey: Sized {
    spec fn lt_spec(self, other: Self) -> bool;

    /// The laws of a strict total order: transitivity, asymmetry, and
    /// totality up to equality.
    proof fn lemma_total_order(a: Self, b: Self, c: Self)
        ensures
            a.lt_spec(b) && b.lt_spec(c) ==> a.lt_spec(c),
            !(a.lt_spec(b) && b.lt_spec(a)),
            a.lt_spec(b) || b.lt_spec(a) || a == b,
    ;

    /// Decides the strict order.
    fn lt(&self, other: &Self) -> (r: bool)
        ensures
            r == self.lt_spec(*other),
    ;
}

impl TreeKey for u8 {
    open spec fn lt_spec(self, other: Self) -> bool {
        self < other
    }

    proof fn lemma_total_order(a: Self, b: Self, c: Self) {
    }

    fn lt(&self, other: &Self) -> (r: bool) {
        *self < *other
    }
}

impl TreeKey for u64 {
    open spec fn lt_spec(self, other: Self) -> bool {
        self < other
    }

    proof fn lemma_total_order(a: Self, b: Self, c: Self) {
    }

    fn lt(&self, other: &Self) -> (r: bool) {
        *self < *other
    }
}

/// One node of the tree. The key and the value are readable by users of the
/// iterators; `height` records the depth at which the entry was inserted.
#[derive(Debug, PartialEq)]
pub struct Entry<K, V> {
    pub key: K,
    pub value: V,
    pub left: Tree<K, V>,
    pub right: Tree<K, V>,
    pub height: usize,
}

pub type Tree<K, V> = Option<Box<Entry<K, V>>>;

/// The in-order walk of a tree: left subtree, node, right subtree. Under
/// the shape invariant this lists keys in descending order.
pub closed spec fn tree_seq<K, V>(t: Tree<K, V>) -> Seq<(K, V)>
    decreases t,
{
    match t {
        None => seq![],
        Some(e) => tree_seq((*e).left) + seq![((*e).key, (*e).value)] + tree_seq((*e).right),
    }
}

/// The reverse walk: right subtree, node, left subtree.
pub closed spec fn tree_seq_rev<K, V>(t: Tree<K, V>) -> Seq<(K, V)>
    decreases t,
{
    match t {
        None => seq![],
        Some(e) => tree_seq_rev((*e).right) + seq![((*e).key, (*e).value)] + tree_seq_rev(
            (*e).left,
        ),
    }
}

pub proof fn lemma_tree_seq_rev<K, V>(t: Tree<K, V>)
    ensures
        tree_seq_rev(t) == tree_seq(t).reverse(),
    decreases t,
{
    match t {
        None => {
            assert(tree_seq_rev(t) =~= tree_seq(t).reverse());
        },
        Some(e) => {
            lemma_tree_seq_rev((*e).left);
            lemma_tree_seq_rev((*e).right);
            assert(tree_seq_rev(t) =~= tree_seq(t).reverse());
        },
    }
}

/// The key-to-value map a tree holds.
pub closed spec fn tree_map<K, V>(t: Tree<K, V>) -> Map<K, V>
    decreases t,
{
    match t {
        None => Map::empty(),
        Some(e) => tree_map((*e).left).union_prefer_right(tree_map((*e).right)).insert(
            (*e).key,
            (*e).value,
        ),
    }
}

/// The shape invariant: all keys in a node's left subtree are greater than
/// its key, all keys in its right subtree smaller, recursively.
pub closed spec fn tree_wf<K: TreeKey, V>(t: Tree<K, V>) -> bool
    decreases t,
{
    match t {
        None => true,
        Some(e) => {
            &&& (forall|k: K|
                tree_map((*e).left).dom().contains(k) ==> (#[trigger] (*e).key.lt_spec(k)))
            &&& (forall|k: K|
                tree_map((*e).right).dom().contains(k) ==> (#[trigger] k.lt_spec((*e).key)))
            &&& !tree_map((*e).left).dom().contains((*e).key)
            &&& !tree_map((*e).right).dom().contains((*e).key)
            &&& tree_map((*e).left).dom().disjoint(tree_map((*e).right).dom())
            &&& tree_wf((*e).left)
            &&& tree_wf((*e).right)
        },
    }
}

/// The number of entries in a tree.
pub open spec fn tree_size<K, V>(t: Tree<K, V>) -> nat {
    tree_seq(t).len()
}

/// A map with unique, totally ordered keys, stored as an unbalanced binary
/// search tree that keeps keys in descending in-order position.
#[derive(Debug, PartialEq)]
pub struct SortedMap<K, V> {
    pub root: Tree<K, V>,
    size: usize,
}

impl<K: TreeKey, V> SortedMap<K, V> {
    /// The key-to-value map held.
    pub closed spec fn map_view(self) -> Map<K, V> {
        tree_map(self.root)
    }

    /// The entries in iteration (descending key) order.
    pub closed spec fn entries(self) -> Seq<(K, V)> {
        tree_seq(self.root)
    }

    pub closed spec fn wf(self) -> bool {
        tree_wf(self.root) && self.size == tree_seq(self.root).len()
    }

    /// An empty map.
    pub fn new() -> (r: Self)
        ensures
            r.wf(),
            r.map_view() == Map::<K, V>::empty(),
            r.entries() == Seq::<(K, V)>::empty(),
    {
        let r = SortedMap { root: None, size: 0 };
        proof {
            assert(r.entries() =~= Seq::<(K, V)>::empty());
        }
        r
    }

    /// How many entries the map holds.
    pub fn len(&self) -> (r: usize)
        requires
            self.wf(),
        ensures
            r == self.entries().len(),
    {
        self.size
    }
}

fn tree_insert<K: TreeKey, V>(t: &mut Tree<K, V>, key: K, value: V, height: usize) -> (r: bool)
    requires
        tree_wf(*old(t)),
        height + tree_size(*old(t)) + 1 <= usize::MAX,
    ensures
        tree_wf(*final(t)),
        r == !tree_map(*old(t)).dom().contains(key),
        r ==> tree_map(*final(t)) == tree_map(*old(t)).insert(key, value),
        r ==> tree_size(*final(t)) == tree_size(*old(t)) + 1,
        !r ==> *final(t) == *old(t),
    decreases *old(t),
{
    let ghost t0 = *t;
    match t.take() {
        None => {
            *t = Some(
                Box::new(Entry { key, value, left: None, right: None, height }),
            );
            proof {
                assert(tree_map(*t) =~= tree_map(t0).insert(key, value));
                assert(tree_seq(*t) =~= seq![(key, value)]);
            }
            true
        },
        Some(mut e) => {
            let go_left = e.key.lt(&key);
            let go_right = if go_left {
                false
            } else {
                key.lt(&e.key)
            };
            let ghost k0 = e.key;
            let ghost lm = tree_map(e.left);
            let ghost rm = tree_map(e.right);
            if go_left {
                proof {
                    TreeKey::lemma_total_order(k0, key, k0);
                    TreeKey::lemma_total_order(key, k0, key);
                }
                let r = tree_insert(&mut e.left, key, value, height + 1);
                let ghost lm2 = tree_map(e.left);
                *t = Some(e);
                proof {
                    if r {
                        assert(lm2.dom() =~= lm.dom().insert(key));
                        assert(tree_map(*t) =~= tree_map(t0).insert(key, value));
                        assert(tree_seq(*t).len() == tree_seq(t0).len() + 1);
                    } else {
                        assert(*t =~= t0);
                    }
                    assert(tree_map(t0).dom().contains(key) <==> lm.dom().contains(key));
                }
                r
            } else if go_right {
                proof {
                    TreeKey::lemma_total_order(k0, key, k0);
                    TreeKey::lemma_total_order(key, k0, key);
                }
                let r = tree_insert(&mut e.right, key, value, height + 1);
                let ghost rm2 = tree_map(e.right);
                *t = Some(e);
                proof {
                    if r {
                        assert(rm2.dom() =~= rm.dom().insert(key));
                        assert(tree_map(*t) =~= tree_map(t0).insert(key, value));
                        assert(tree_seq(*t).len() == tree_seq(t0).len() + 1);
                    } else {
                        assert(*t =~= t0);
                    }
                    assert(tree_map(t0).dom().contains(key) <==> rm.dom().contains(key));
                }
                r
            } else {
                *t = Some(e);
                proof {
                    TreeKey::lemma_total_order(k0, key, key);
                    assert(k0 == key);
                    assert(*t =~= t0);
                    assert(tree_map(t0).dom().contains(key));
                }
                false
            }
        },
    }
}

impl<K: TreeKey, V> SortedMap<K, V> {
    /// Inserts the pair when the key is fresh and reports whether it did;
    /// an already present key leaves the map unchanged, keeping its old
    /// value.
    pub fn insert(&mut self, key: K, value: V) -> (r: bool)
        requires
            old(self).wf(),
            old(self).entries().len() < usize::MAX,
        ensures
            final(self).wf(),
            r == !old(self).map_view().dom().contains(key),
            r ==> final(self).map_view() == old(self).map_view().insert(key, value),
            r ==> final(self).entries().len() == old(self).entries().len() + 1,
            !r ==> *final(self) == *old(self),
    {
        let r = tree_insert(&mut self.root, key, value, 0);
        if r {
            self.size = self.size + 1;
        }
        r
    }
}

proof fn lemma_tree_entries<K: TreeKey, V>(t: Tree<K, V>)
    requires
        tree_wf(t),
    ensures
        forall|i: int, j: int|
            0 <= i < j < tree_seq(t).len() ==> (#[trigger] tree_seq(t)[j]).0.lt_spec(
                (#[trigger] tree_seq(t)[i]).0,
            ),
        forall|i: int|
            0 <= i < tree_seq(t).len() ==> tree_map(t).dom().contains(
                (#[trigger] tree_seq(t)[i]).0,
            ) && tree_map(t)[tree_seq(t)[i].0] == tree_seq(t)[i].1,
        forall|k: K|
            #[trigger] tree_map(t).dom().contains(k) ==> exists|i: int|
                0 <= i < tree_seq(t).len() && (#[trigger] tree_seq(t)[i]).0 == k,
    decreases t,
{
    match t {
        None => {},
        Some(e) => {
            let en = *e;
            lemma_tree_entries(en.left);
            lemma_tree_entries(en.right);
            let ls = tree_seq(en.left);
            let rs = tree_seq(en.right);
            let s = tree_seq(t);
            let lm = tree_map(en.left);
            let rm = tree_map(en.right);
            assert forall|i: int|
                0 <= i < s.len() implies tree_map(t).dom().contains((#[trigger] s[i]).0)
                && tree_map(t)[s[i].0] == s[i].1 by {
                if i < ls.len() {
                    assert(s[i] == ls[i]);
                    assert(lm.dom().contains(ls[i].0));
                } else if i == ls.len() {
                    assert(s[i] == (en.key, en.value));
                } else {
                    assert(s[i] == rs[i - ls.len() - 1]);
                    assert(rm.dom().contains(rs[i - ls.len() - 1].0));
                }
            }
            assert forall|k: K| #[trigger] tree_map(t).dom().contains(k) implies exists|i: int|
                0 <= i < s.len() && (#[trigger] s[i]).0 == k by {
                if k == en.key {
                    assert(s[ls.len() as int].0 == k);
                } else if lm.dom().contains(k) {
                    let i = choose|i: int| 0 <= i < ls.len() && (#[trigger] ls[i]).0 == k;
                    assert(s[i].0 == k);
                } else {
                    let i = choose|i: int| 0 <= i < rs.len() && (#[trigger] rs[i]).0 == k;
                    assert(s[ls.len() + 1 + i].0 == k);
                }
            }
            assert forall|i: int, j: int|
                0 <= i < j < s.len() implies (#[trigger] s[j]).0.lt_spec(
                (#[trigger] s[i]).0,
            ) by {
                if j < ls.len() {
                    assert(s[i] == ls[i] && s[j] == ls[j]);
                } else if i > ls.len() {
                    assert(s[i] == rs[i - ls.len() - 1] && s[j] == rs[j - ls.len() - 1]);
                } else if i == ls.len() && j > ls.len() {
                    assert(s[j] == rs[j - ls.len() - 1]);
                    assert(rm.dom().contains(s[j].0));
                } else if i < ls.len() && j == ls.len() {
                    assert(s[i] == ls[i]);
                    assert(lm.dom().contains(s[i].0));
                } else {
                    assert(s[i] == ls[i]);
                    assert(s[j] == rs[j - ls.len() - 1]);
                    assert(lm.dom().contains(s[i].0));
                    assert(rm.dom().contains(s[j].0));
                    TreeKey::lemma_total_order(s[j].0, en.key, s[i].0);
                }
            }
        },
    }
}

impl<K: TreeKey, V> SortedMap<K, V> {
    /// What well-formedness means for the traversals: the entries list
    /// pairwise distinct keys in strictly descending order, and they are
    /// exactly the entries of the key-to-value view.
    pub proof fn lemma_entries_sorted(self)
        requires
            self.wf(),
        ensures
            forall|i: int, j: int|
                0 <= i < j < self.entries().len() ==> (#[trigger] self.entries()[j]).0.lt_spec(
                    (#[trigger] self.entries()[i]).0,
                ),
            forall|i: int|
                0 <= i < self.entries().len() ==> self.map_view().dom().contains(
                    (#[trigger] self.entries()[i]).0,
                ) && self.map_view()[self.entries()[i].0] == self.entries()[i].1,
            forall|k: K|
                #[trigger] self.map_view().dom().contains(k) ==> exists|i: int|
                    0 <= i < self.entries().len() && (#[trigger] self.entries()[i]).0 == k,
    {
        lemma_tree_entries(self.root);
        assert forall|k: K| #[trigger] self.map_view().dom().contains(k) implies exists|i: int|
            0 <= i < self.entries().len() && (#[trigger] self.entries()[i]).0 == k by {
            let i = choose|i: int|
                0 <= i < tree_seq(self.root).len() && (#[trigger] tree_seq(self.root)[i]).0 == k;
            assert(self.entries()[i].0 == k);
        }
    }
}

/// A traversal of the tree by reference. One state serves both directions,
/// as a pair of cursors into the tree: each call's contract speaks of the
/// sequence remaining in its own direction.
pub struct SortedMapIter<'a, K, V> {
    stack: Vec<&'a Entry<K, V>>,
    current: &'a Tree<K, V>,
}

spec fn stack_fwd<K, V>(st: Seq<&Entry<K, V>>) -> Seq<(K, V)>
    decreases st.len(),
{
    if st.len() == 0 {
        seq![]
    } else {
        let e = *st.last();
        seq![(e.key, e.value)] + tree_seq(e.right) + stack_fwd(st.drop_last())
    }
}

spec fn stack_bwd<K, V>(st: Seq<&Entry<K, V>>) -> Seq<(K, V)>
    decreases st.len(),
{
    if st.len() == 0 {
        seq![]
    } else {
        let e = *st.last();
        seq![(e.key, e.value)] + tree_seq_rev(e.left) + stack_bwd(st.drop_last())
    }
}

impl<'a, K, V> SortedMapIter<'a, K, V> {
    /// The entries still to be yielded walking forward (descending keys).
    pub closed spec fn fwd(self) -> Seq<(K, V)> {
        tree_seq(*self.current) + stack_fwd(self.stack@)
    }

    /// The entries still to be yielded walking backward (ascending keys).
    pub closed spec fn bwd(self) -> Seq<(K, V)> {
        tree_seq_rev(*self.current) + stack_bwd(self.stack@)
    }

    /// Yields the next entry walking forward, or nothing when the forward
    /// remainder is exhausted.
    #[verifier::loop_isolation(false)]
    pub fn next(&mut self) -> (r: Option<&'a Entry<K, V>>)
        ensures
            old(self).fwd().len() == 0 ==> r is None && final(self).fwd().len() == 0,
            old(self).fwd().len() > 0 ==> (r matches Some(e) && ((*e).key, (*e).value) == old(
                self,
            ).fwd()[0] && final(self).fwd() == old(self).fwd().skip(1)),
    {
        loop
            invariant
                self.fwd() == old(self).fwd(),
            decreases tree_size(*self.current),
        {
            let cur = self.current;
            match cur {
                None => {
                    let ghost st = self.stack@;
                    match self.stack.pop() {
                        None => {
                            return None;
                        },
                        Some(parent) => {
                            self.current = &parent.right;
                            proof {
                                assert(self.stack@ =~= st.drop_last());
                                assert(self.fwd() =~= old(self).fwd().skip(1));
                            }
                            return Some(parent);
                        },
                    }
                },
                Some(node) => {
                    if node.left.is_some() {
                        let ghost st = self.stack@;
                        self.stack.push(&**node);
                        self.current = &node.left;
                        proof {
                            assert(self.stack@.drop_last() =~= st);
                            assert(self.stack@.last() == &**node);
                            assert(self.fwd() =~= tree_seq(*cur) + stack_fwd(st));
                        }
                    } else {
                        self.current = &node.right;
                        proof {
                            assert(tree_seq((**node).left) =~= Seq::<(K, V)>::empty());
                            assert(self.fwd() =~= old(self).fwd().skip(1));
                        }
                        return Some(&**node);
                    }
                },
            }
        }
    }

    /// Yields the next entry walking backward, or nothing when the backward
    /// remainder is exhausted.
    #[verifier::loop_isolation(false)]
    pub fn next_back(&mut self) -> (r: Option<&'a Entry<K, V>>)
        ensures
            old(self).bwd().len() == 0 ==> r is None && final(self).bwd().len() == 0,
            old(self).bwd().len() > 0 ==> (r matches Some(e) && ((*e).key, (*e).value) == old(
                self,
            ).bwd()[0] && final(self).bwd() == old(self).bwd().skip(1)),
    {
        loop
            invariant
                self.bwd() == old(self).bwd(),
            decreases tree_size(*self.current),
        {
            let cur = self.current;
            match cur {
                None => {
                    let ghost st = self.stack@;
                    match self.stack.pop() {
                        None => {
                            return None;
                        },
                        Some(parent) => {
                            self.current = &parent.left;
                            proof {
                                assert(self.stack@ =~= st.drop_last());
                                assert(self.bwd() =~= old(self).bwd().skip(1));
                            }
                            return Some(parent);
                        },
                    }
                },
                Some(node) => {
                    if node.right.is_some() {
                        let ghost st = self.stack@;
                        self.stack.push(&**node);
                        self.current = &node.right;
                        proof {
                            assert(self.stack@.drop_last() =~= st);
                            assert(self.stack@.last() == &**node);
                            assert(self.bwd() =~= tree_seq_rev(*cur) + stack_bwd(st));
                        }
                    } else {
                        self.current = &node.left;
                        proof {
                            assert(tree_seq_rev((**node).right) =~= Seq::<(K, V)>::empty());
                            assert(self.bwd() =~= old(self).bwd().skip(1));
                        }
                        return Some(&**node);
                    }
                },
            }
        }
    }
}

impl<K: TreeKey, V> SortedMap<K, V> {
    /// A traversal positioned at the start: walking it forward yields the
    /// entries in order, walking it backward yields them reversed.
    pub fn iter<'a>(&'a self) -> (it: SortedMapIter<'a, K, V>)
        ensures
            it.fwd() == self.entries(),
            it.bwd() == self.entries().reverse(),
    {
        let it = SortedMapIter { stack: Vec::new(), current: &self.root };
        proof {
            assert(stack_fwd(it.stack@) =~= Seq::<(K, V)>::empty());
            assert(stack_bwd(it.stack@) =~= Seq::<(K, V)>::empty());
            assert(it.fwd() =~= tree_seq(self.root));
            lemma_tree_seq_rev(self.root);
            assert(it.bwd() =~= tree_seq(self.root).reverse());
        }
        it
    }
}

} // verus!
