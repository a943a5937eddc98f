//! A prefix-search trie: words are stored along character paths, and a
//! lookup collects every stored word that extends a given prefix.

use vstd::prelude::*;

verus! {

/// A trie node. Each child is keyed by one character, keys are unique, and
/// a node that ends a stored word keeps the whole word (which always equals
/// the node's path from the root).
pub struct Trie {
    children: Vec<(char, Trie)>,
    value: Option<String>,
}

/// The words stored in this subtree, as full texts.
pub closed spec fn stored(t: Trie) -> Set<Seq<char>>
    decreases t, 0int,
{
    let own = match t.value {
        Some(s) => Set::empty().insert(s@),
        None => Set::<Seq<char>>::empty(),
    };
    own.union(stored_children(t.children@, 0))
}

spec fn stored_children(cs: Seq<(char, Trie)>, i: int) -> Set<Seq<char>>
    decreases cs, cs.len() - i,
{
    if 0 <= i < cs.len() {
        stored(cs[i].1).union(stored_children(cs, i + 1))
    } else {
        Set::empty()
    }
}

/// Well-formedness of the node standing at `path`: a stored word equals the
/// path, child characters are distinct, and each child is well-formed one
/// character further along.
pub closed spec fn wf_at(t: Trie, path: Seq<char>) -> bool
    decreases t, 0int,
{
    &&& (match t.value {
        Some(s) => s@ == path,
        None => true,
    })
    &&& (forall|a: int, b: int|
        0 <= a < b < t.children@.len() ==> (#[trigger] t.children@[a].0) != (
        #[trigger] t.children@[b].0))
    &&& wf_children(t.children@, 0, path)
}

spec fn wf_children(cs: Seq<(char, Trie)>, i: int, path: Seq<char>) -> bool
    decreases cs, cs.len() - i,
{
    if 0 <= i < cs.len() {
        wf_at(cs[i].1, path.push(cs[i].0)) && wf_children(cs, i + 1, path)
    } else {
        true
    }
}

proof fn lemma_wf_children_index(cs: Seq<(char, Trie)>, i: int, path: Seq<char>, j: int)
    requires
        wf_children(cs, i, path),
        0 <= i <= j < cs.len(),
    ensures
        wf_at(cs[j].1, path.push(cs[j].0)),
    decreases j - i,
{
    if i < j {
        lemma_wf_children_index(cs, i + 1, path, j);
    }
}

/// Replacing the child at `j` by one whose words gained exactly `w` gains
/// exactly `w` for the whole suffix that contains `j`.
proof fn lemma_stored_children_update(
    cs: Seq<(char, Trie)>,
    j: int,
    x: (char, Trie),
    w: Seq<char>,
    i: int,
)
    requires
        0 <= j < cs.len(),
        stored(x.1) == stored(cs[j].1).insert(w),
    ensures
        0 <= i <= j ==> stored_children(cs.update(j, x), i) == stored_children(cs, i).insert(w),
        i > j ==> stored_children(cs.update(j, x), i) == stored_children(cs, i),
    decreases cs.len() - i,
{
    let cs2 = cs.update(j, x);
    if i < 0 {
    } else if i >= cs.len() {
    } else {
        lemma_stored_children_update(cs, j, x, w, i + 1);
        if i == j {
            assert(cs2[i].1 == x.1);
            assert(stored(x.1).union(stored_children(cs2, i + 1)) =~= stored(
                cs[i].1,
            ).union(stored_children(cs, i + 1)).insert(w));
        } else if i < j {
            assert(cs2[i].1 == cs[i].1);
            assert(stored(cs[i].1).union(stored_children(cs, i + 1).insert(w)) =~= stored(
                cs[i].1,
            ).union(stored_children(cs, i + 1)).insert(w));
        } else {
            assert(cs2[i].1 == cs[i].1);
        }
    }
}

/// Keeping the same child character and well-formedness at `j` keeps the
/// suffix well-formed.
proof fn lemma_wf_children_update(
    cs: Seq<(char, Trie)>,
    j: int,
    x: (char, Trie),
    path: Seq<char>,
    i: int,
)
    requires
        0 <= j < cs.len(),
        x.0 == cs[j].0,
        wf_at(x.1, path.push(x.0)),
        wf_children(cs, i, path),
    ensures
        wf_children(cs.update(j, x), i, path),
    decreases cs.len() - i,
{
    if 0 <= i < cs.len() {
        lemma_wf_children_update(cs, j, x, path, i + 1);
    }
}

/// A new empty child at the end stores nothing and upsets nothing.
proof fn lemma_children_push(cs: Seq<(char, Trie)>, x: (char, Trie), path: Seq<char>, i: int)
    requires
        0 <= i <= cs.len(),
        stored(x.1) == Set::<Seq<char>>::empty(),
        wf_at(x.1, path.push(x.0)),
        wf_children(cs, i, path),
    ensures
        stored_children(cs.push(x), i) == stored_children(cs, i),
        wf_children(cs.push(x), i, path),
    decreases cs.len() - i,
{
    let cs2 = cs.push(x);
    if i < cs.len() {
        lemma_children_push(cs, x, path, i + 1);
        assert(cs2[i] == cs[i]);
        assert(stored(cs2[i].1).union(stored_children(cs2, i + 1)) =~= stored(
            cs[i].1,
        ).union(stored_children(cs, i + 1)));
    } else {
        assert(cs2[i] == x);
        assert(stored_children(cs2, i + 1) =~= Set::<Seq<char>>::empty());
        assert(stored(cs2[i].1).union(stored_children(cs2, i + 1)) =~= stored_children(cs, i));
        assert(wf_children(cs2, i + 1, path));
        assert(wf_at(cs2[i].1, path.push(cs2[i].0)));
    }
}

impl Trie {
    /// A node with no children and no stored word; well-formed wherever it
    /// stands.
    pub fn empty() -> (t: Trie)
        ensures
            stored(t) == Set::<Seq<char>>::empty(),
            forall|p: Seq<char>| wf_at(t, p),
    {
        let t = Trie { children: Vec::new(), value: None };
        proof {
            assert(stored_children(t.children@, 0) =~= Set::<Seq<char>>::empty());
            assert(stored(t) =~= Set::<Seq<char>>::empty());
        }
        t
    }

    /// Well-formedness of a whole trie: its root stands at the empty path.
    pub open spec fn wf(self) -> bool {
        wf_at(self, Seq::empty())
    }

    /// Stores a word: afterwards the trie holds the old words and this one.
    pub fn insert(&mut self, value: &str)
        requires
            old(self).wf(),
        ensures
            final(self).wf(),
            stored(*final(self)) == stored(*old(self)).insert(value@),
    {
        proof {
            assert(value@.take(0) =~= Seq::<char>::empty());
        }
        self.insert_at(value, 0);
    }

    fn insert_at(&mut self, value: &str, i: usize)
        requires
            i <= value@.len(),
            wf_at(*old(self), value@.take(i as int)),
        ensures
            wf_at(*final(self), value@.take(i as int)),
            stored(*final(self)) == stored(*old(self)).insert(value@),
        decreases value@.len() - i,
    {
        let ghost path = value@.take(i as int);
        let n = value.unicode_len();
        if i == n {
            proof {
                assert(path =~= value@);
            }
            let word = String::from_str(value);
            self.value = Some(word);
            proof {
                assert(stored(*self) =~= stored(*old(self)).insert(value@));
            }
        } else {
            let c = value.get_char(i);
            let ghost path2 = value@.take(i + 1);
            proof {
                assert(path2 =~= path.push(c));
            }
            let mut j: usize = 0;
            let mut found = false;
            let count = self.children.len();
            while !found && j < count
                invariant
                    j <= count == self.children@.len(),
                    found ==> j < count && self.children@[j as int].0 == c,
                    !found ==> forall|k: int| 0 <= k < j ==> self.children@[k].0 != c,
                decreases count - j + (if found {
                    0int
                } else {
                    1int
                }),
            {
                if self.children[j].0 == c {
                    found = true;
                } else {
                    j = j + 1;
                }
            }
            if !found {
                let fresh = Trie::empty();
                proof {
                    lemma_children_push(self.children@, (c, fresh), path, 0);
                }
                self.children.push((c, fresh));
            }
            let ghost cs0 = self.children@;
            proof {
                lemma_wf_children_index(cs0, 0, path, j as int);
            }
            let child = &mut self.children[j];
            child.1.insert_at(value, i + 1);
            proof {
                let x = self.children@[j as int];
                lemma_stored_children_update(cs0, j as int, x, value@, 0);
                lemma_wf_children_update(cs0, j as int, x, path, 0);
                assert(self.children@ =~= cs0.update(j as int, x));
                assert(stored(*self) =~= stored(*old(self)).insert(value@));
            }
        }
    }
}

/// The words a vector holds, as texts.
pub open spec fn word_set(v: Seq<String>) -> Set<Seq<char>> {
    v.map_values(|s: String| s@).to_set()
}

proof fn lemma_word_set_push(v: Seq<String>, s: String)
    ensures
        word_set(v.push(s)) == word_set(v).insert(s@),
{
    let m1 = v.push(s).map_values(|t: String| t@);
    let m0 = v.map_values(|t: String| t@);
    assert(m1 =~= m0.push(s@));
    assert(m1.to_set() =~= m0.to_set().insert(s@)) by {
        assert forall|x: Seq<char>| m1.contains(x) implies m0.contains(x) || x == s@ by {
            let i = choose|i: int| 0 <= i < m1.len() && m1[i] == x;
            if i < m0.len() {
                assert(m0[i] == x);
            }
        }
        assert forall|x: Seq<char>| m0.contains(x) implies m1.contains(x) by {
            let i = choose|i: int| 0 <= i < m0.len() && m0[i] == x;
            assert(m1[i] == x);
        }
        assert(m1[m0.len() as int] == s@);
    }
}

/// The first child position keyed by `c`, or the child count when no child
/// is.
spec fn child_index(cs: Seq<(char, Trie)>, c: char, i: int) -> int
    decreases cs.len() - i,
{
    if 0 <= i < cs.len() {
        if cs[i].0 == c {
            i
        } else {
            child_index(cs, c, i + 1)
        }
    } else {
        cs.len() as int
    }
}

/// The node reached by walking the characters of `p` from position `i`
/// down the child edges, if every step finds a child.
pub closed spec fn node_at(t: Trie, p: Seq<char>, i: int) -> Option<Trie>
    decreases p.len() - i,
{
    if !(0 <= i <= p.len()) {
        None
    } else if i == p.len() {
        Some(t)
    } else {
        let j = child_index(t.children@, p[i], 0);
        if j < t.children@.len() {
            node_at(t.children@[j].1, p, i + 1)
        } else {
            None
        }
    }
}

/// The subset of `words` that `p` is a prefix of.
pub open spec fn extending(words: Set<Seq<char>>, p: Seq<char>) -> Set<Seq<char>> {
    words.filter(|w: Seq<char>| p.is_prefix_of(w))
}

proof fn lemma_child_index(cs: Seq<(char, Trie)>, c: char, i: int)
    requires
        0 <= i <= cs.len(),
    ensures
        i <= child_index(cs, c, i) <= cs.len(),
        forall|k: int| i <= k < child_index(cs, c, i) ==> (#[trigger] cs[k]).0 != c,
        child_index(cs, c, i) < cs.len() ==> cs[child_index(cs, c, i)].0 == c,
    decreases cs.len() - i,
{
    if i < cs.len() && cs[i].0 != c {
        lemma_child_index(cs, c, i + 1);
    }
}

proof fn lemma_stored_children_member(cs: Seq<(char, Trie)>, i: int, k: int, w: Seq<char>)
    requires
        0 <= i <= k < cs.len(),
        stored(cs[k].1).contains(w),
    ensures
        stored_children(cs, i).contains(w),
    decreases k - i,
{
    if i < k {
        lemma_stored_children_member(cs, i + 1, k, w);
    }
}

proof fn lemma_stored_children_cases(cs: Seq<(char, Trie)>, i: int, w: Seq<char>)
    requires
        stored_children(cs, i).contains(w),
    ensures
        exists|k: int| i <= k < cs.len() && stored((#[trigger] cs[k]).1).contains(w),
    decreases cs.len() - i,
{
    if 0 <= i < cs.len() {
        if stored(cs[i].1).contains(w) {
            assert(exists|k: int|
                i <= k < cs.len() && stored((#[trigger] cs[k]).1).contains(w)) by {
                assert(stored((cs[i]).1).contains(w));
            }
        } else {
            lemma_stored_children_cases(cs, i + 1, w);
        }
    }
}

/// Every word stored below a node extends the node's path.
proof fn lemma_stored_extend(t: Trie, q: Seq<char>)
    requires
        wf_at(t, q),
    ensures
        forall|w: Seq<char>| #[trigger] stored(t).contains(w) ==> q.is_prefix_of(w),
    decreases t, 0int,
{
    lemma_stored_children_extend(t.children@, 0, q);
    assert forall|w: Seq<char>| #[trigger] stored(t).contains(w) implies q.is_prefix_of(w) by {
        if !stored_children(t.children@, 0).contains(w) {
            assert(w == q);
            assert(q.is_prefix_of(q));
        }
    }
}

proof fn lemma_stored_children_extend(cs: Seq<(char, Trie)>, i: int, q: Seq<char>)
    requires
        wf_children(cs, i, q),
    ensures
        forall|w: Seq<char>| #[trigger] stored_children(cs, i).contains(w) ==> q.is_prefix_of(w),
    decreases cs, cs.len() - i,
{
    if 0 <= i < cs.len() {
        lemma_stored_extend(cs[i].1, q.push(cs[i].0));
        lemma_stored_children_extend(cs, i + 1, q);
        assert forall|w: Seq<char>| #[trigger] stored_children(cs, i).contains(w) implies
            q.is_prefix_of(w) by {
            if stored(cs[i].1).contains(w) {
                assert(q.push(cs[i].0).is_prefix_of(w));
                assert(q =~= w.subrange(0, q.len() as int));
            } else {
                assert(stored_children(cs, i + 1).contains(w));
            }
        }
    }
}

/// Walking from position `i` of `p`, with the node standing at the path
/// already walked: the words below the reached node are exactly the words
/// below this node that extend the whole of `p`.
proof fn lemma_node_at_filter(t: Trie, p: Seq<char>, i: int)
    requires
        0 <= i <= p.len(),
        wf_at(t, p.take(i)),
    ensures
        forall|w: Seq<char>|
            (match node_at(t, p, i) {
                Some(n) => stored(n).contains(w),
                None => false,
            }) <==> (#[trigger] stored(t).contains(w) && p.is_prefix_of(w)),
    decreases p.len() - i,
{
    let path = p.take(i);
    if i == p.len() {
        assert(path =~= p);
        lemma_stored_extend(t, p);
    } else {
        let cs = t.children@;
        let c = p[i];
        let j = child_index(cs, c, 0);
        lemma_child_index(cs, c, 0);
        lemma_stored_extend(t, path);
        assert forall|w: Seq<char>|
            (match node_at(t, p, i) {
                Some(n) => stored(n).contains(w),
                None => false,
            }) <==> (#[trigger] stored(t).contains(w) && p.is_prefix_of(w)) by {
            if j < cs.len() {
                lemma_wf_children_index(cs, 0, path, j);
                assert(p.take(i + 1) =~= path.push(c));
                assert(wf_at(cs[j].1, p.take(i + 1)));
                lemma_node_at_filter(cs[j].1, p, i + 1);
                assert(node_at(t, p, i) == node_at(cs[j].1, p, i + 1));
                if stored(cs[j].1).contains(w) && p.is_prefix_of(w) {
                    lemma_stored_children_member(cs, 0, j, w);
                    assert(stored_children(cs, 0).contains(w));
                    assert(stored(t).contains(w));
                }
            } else {
                assert(node_at(t, p, i) is None);
            }
            if stored(t).contains(w) && p.is_prefix_of(w) {
                // The word is longer than this node's path, so it lies below
                // some child, and the child's first character must be `c`.
                if !stored_children(cs, 0).contains(w) {
                    assert(w == path);
                    assert(p.len() <= w.len());
                    assert(false);
                }
                lemma_stored_children_cases(cs, 0, w);
                let k = choose|k: int| 0 <= k < cs.len() && stored((#[trigger] cs[k]).1).contains(
                    w,
                );
                lemma_wf_children_index(cs, 0, path, k);
                lemma_stored_extend(cs[k].1, path.push(cs[k].0));
                assert(path.push(cs[k].0).is_prefix_of(w));
                assert(path.push(cs[k].0) =~= w.subrange(0, i + 1));
                assert(w[i] == cs[k].0);
                assert(p =~= w.subrange(0, p.len() as int));
                assert(w[i] == p[i]);
                assert(cs[k].0 == c);
                assert(j < cs.len());
                assert(k == j);
                assert(stored(cs[j].1).contains(w));
            }
        }
    }
}

impl Trie {
    /// The meaning of the prefix walk for a well-formed trie: the words
    /// below the reached node are exactly the stored words that the prefix
    /// is a prefix of.
    pub proof fn lemma_prefix_search(self, p: Seq<char>)
        requires
            self.wf(),
        ensures
            (match node_at(self, p, 0) {
                Some(n) => stored(n),
                None => Set::<Seq<char>>::empty(),
            }) == extending(stored(self), p),
    {
        assert(p.take(0) =~= Seq::<char>::empty());
        lemma_node_at_filter(self, p, 0);
        let found = (match node_at(self, p, 0) {
            Some(n) => stored(n),
            None => Set::<Seq<char>>::empty(),
        });
        let filtered = extending(stored(self), p);
        assert forall|w: Seq<char>| found.contains(w) <==> filtered.contains(w) by {
            assert(filtered.contains(w) == (stored(self).contains(w) && p.is_prefix_of(w)));
        }
        assert(found =~= filtered);
    }
}

impl Trie {
    /// Appends every word stored in this subtree to `results`, depth first,
    /// a node's own word before its children's.
    fn collect(&self, results: &mut Vec<String>)
        ensures
            word_set(final(results)@) == word_set(old(results)@).union(stored(*self)),
        decreases *self,
    {
        let ghost target = word_set(old(results)@).union(stored(*self));
        match &self.value {
            Some(v) => {
                let ghost r0 = results@;
                let copy = v.clone();
                results.push(copy);
                proof {
                    lemma_word_set_push(r0, *v);
                }
            },
            None => {},
        }
        let ghost cs = self.children@;
        proof {
            assert(word_set(results@).union(stored_children(cs, 0)) =~= target);
        }
        let count = self.children.len();
        let mut k: usize = 0;
        while k < count
            invariant
                k <= count == cs.len(),
                cs == self.children@,
                word_set(results@).union(stored_children(cs, k as int)) == target,
            decreases count - k,
        {
            let ghost r1 = word_set(results@);
            let child = &self.children[k];
            proof {
                assert(decreases_to!(*self => self.children));
                assert(decreases_to!(self.children => self.children@));
                assert(decreases_to!(self.children@ => self.children@[k as int]));
                assert(decreases_to!(self.children@[k as int] => self.children@[k as int].1));
            }
            child.1.collect(results);
            proof {
                assert(word_set(results@).union(stored_children(cs, k + 1)) =~= r1.union(
                    stored_children(cs, k as int),
                ));
            }
            k = k + 1;
        }
        proof {
            assert(stored_children(cs, count as int) =~= Set::<Seq<char>>::empty());
            assert(word_set(results@) =~= target);
        }
    }

    /// Every stored word that the prefix leads to: the walk follows the
    /// prefix's characters down the child edges and, when it reaches a node,
    /// hands back all words stored below it; a missing edge yields nothing.
    #[verifier::loop_isolation(false)]
    pub fn starts_with(&self, prefix: &str) -> (r: Vec<String>)
        ensures
            word_set(r@) == match node_at(*self, prefix@, 0) {
                Some(n) => stored(n),
                None => Set::<Seq<char>>::empty(),
            },
            self.wf() ==> word_set(r@) == extending(stored(*self), prefix@),
    {
        proof {
            if self.wf() {
                self.lemma_prefix_search(prefix@);
            }
        }
        let n = prefix.unicode_len();
        let mut node: &Trie = self;
        let mut i: usize = 0;
        proof {
            assert(word_set(Seq::<String>::empty()) =~= Set::<Seq<char>>::empty());
        }
        while i < n
            invariant
                i <= n == prefix@.len(),
                node_at(*self, prefix@, 0) == node_at(*node, prefix@, i as int),
            decreases n - i,
        {
            let c = prefix.get_char(i);
            let count = node.children.len();
            let mut j: usize = 0;
            while j < count && node.children[j].0 != c
                invariant
                    j <= count == node.children@.len(),
                    child_index(node.children@, c, 0) == child_index(node.children@, c, j as int),
                decreases count - j,
            {
                j = j + 1;
            }
            proof {
                assert(child_index(node.children@, c, 0) == j);
            }
            if j < count {
                node = &node.children[j].1;
                i = i + 1;
            } else {
                let results: Vec<String> = Vec::new();
                proof {
                    assert(word_set(results@) =~= Set::<Seq<char>>::empty());
                }
                return results;
            }
        }
        let mut results: Vec<String> = Vec::new();
        let ghost r0 = results@;
        node.collect(&mut results);
        proof {
            assert(word_set(r0) =~= Set::<Seq<char>>::empty());
            assert(word_set(results@) =~= stored(*node));
        }
        results
    }

    /// A trie holding exactly the given words.
    pub fn new(words: Vec<&str>) -> (t: Trie)
        ensures
            t.wf(),
            stored(t) == words@.map_values(|w: &str| w@).to_set(),
    {
        let mut t = Trie::empty();
        let ghost all = words@.map_values(|w: &str| w@);
        proof {
            assert(stored(t) =~= all.take(0).to_set());
        }
        let count = words.len();
        let mut k: usize = 0;
        while k < count
            invariant
                k <= count == words@.len(),
                all == words@.map_values(|w: &str| w@),
                t.wf(),
                stored(t) == all.take(k as int).to_set(),
            decreases count - k,
        {
            t.insert(words[k]);
            proof {
                let pre = all.take(k as int);
                assert(all.take(k + 1) =~= pre.push(all[k as int]));
                assert(pre.push(all[k as int]).to_set() =~= pre.to_set().insert(all[k as int]))
                    by {
                    assert forall|x: Seq<char>| pre.push(all[k as int]).contains(x) implies
                        pre.contains(x) || x == all[k as int] by {
                        let i = choose|i: int|
                            0 <= i < pre.push(all[k as int]).len() && pre.push(all[k as int])[i]
                                == x;
                        if i < pre.len() {
                            assert(pre[i] == x);
                        }
                    }
                    assert forall|x: Seq<char>| pre.contains(x) implies pre.push(
                        all[k as int],
                    ).contains(x) by {
                        let i = choose|i: int| 0 <= i < pre.len() && pre[i] == x;
                        assert(pre.push(all[k as int])[i] == x);
                    }
                    assert(pre.push(all[k as int])[pre.len() as int] == all[k as int]);
                }
            }
            k = k + 1;
        }
        proof {
            assert(all.take(count as int) =~= all);
        }
        t
    }
}

} // verus!
