//! A B-tree holding a sequence of elements by position.
//!
//! Leaves hold the elements, internal nodes hold children only; the sequence a
//! node stands for is its elements (a leaf) or its children's sequences one
//! after the other (an internal node). A node holding more than `NODE_SIZE`
//! elements or children is split in two.

use vstd::prelude::*;

verus! {

pub const NODE_SIZE: usize = 3;

#[derive(Debug)]
pub struct Node<T> {
    pub elements: Vec<T>,
    pub children: Vec<Node<T>>,
}

pub struct BTree<T> where T: Ord {
    pub root: Option<Node<T>>,
}

/// The sequence that node `n` stands for.
pub open spec fn node_view<T>(n: Node<T>) -> Seq<T>
    decreases n,
{
    if n.children@.len() == 0 {
        n.elements@
    } else {
        children_view(n.children@)
    }
}

/// The sequences of the nodes `cs`, one after the other.
pub open spec fn children_view<T>(cs: Seq<Node<T>>) -> Seq<T>
    decreases cs,
{
    if cs.len() == 0 {
        Seq::empty()
    } else {
        children_view(cs.drop_last()) + node_view(cs.last())
    }
}

/// A node whose internal nodes hold children only, and at least one.
pub open spec fn node_wf<T>(n: Node<T>) -> bool
    decreases n,
{
    if n.children@.len() == 0 {
        true
    } else {
        n.elements@.len() == 0 && children_wf(n.children@)
    }
}

/// Well-formed nodes.
pub open spec fn children_wf<T>(cs: Seq<Node<T>>) -> bool
    decreases cs,
{
    if cs.len() == 0 {
        true
    } else {
        children_wf(cs.drop_last()) && node_wf(cs.last())
    }
}

/// The sequence a tree stands for.
pub open spec fn tree_view<T: Ord>(t: BTree<T>) -> Seq<T> {
    match t.root {
        Some(n) => node_view(n),
        None => Seq::empty(),
    }
}

/// A tree whose root, where there is one, is well formed.
pub open spec fn tree_wf<T: Ord>(t: BTree<T>) -> bool {
    match t.root {
        Some(n) => node_wf(n),
        None => true,
    }
}

pub proof fn lemma_children_concat<T>(a: Seq<Node<T>>, b: Seq<Node<T>>)
    ensures
        children_view(a + b) == children_view(a) + children_view(b),
        children_wf(a + b) == (children_wf(a) && children_wf(b)),
    decreases b.len(),
{
    if b.len() == 0 {
        assert(a + b == a);
    } else {
        lemma_children_concat(a, b.drop_last());
        assert((a + b).drop_last() == a + b.drop_last());
        assert((a + b).last() == b.last());
    }
}

pub proof fn lemma_children_single<T>(c: Node<T>)
    ensures
        children_view(seq![c]) == node_view(c),
        children_wf(seq![c]) == node_wf(c),
{
    let s = seq![c];
    assert(s.drop_last() == Seq::<Node<T>>::empty());
    assert(s.last() == c);
    assert(children_view(Seq::<Node<T>>::empty()) == Seq::<T>::empty());
    assert(children_wf(Seq::<Node<T>>::empty()));
    assert(children_view(s) == children_view(s.drop_last()) + node_view(s.last()));
    assert(Seq::<T>::empty() + node_view(c) == node_view(c));
}

/// The sequence of `cs` split around child `j`.
pub proof fn lemma_children_split<T>(cs: Seq<Node<T>>, j: int)
    requires
        0 <= j < cs.len(),
    ensures
        children_view(cs) == children_view(cs.take(j)) + node_view(cs[j]) + children_view(cs.skip(j + 1)),
        children_wf(cs) == (children_wf(cs.take(j)) && node_wf(cs[j]) && children_wf(cs.skip(j + 1))),
{
    assert(cs == cs.take(j) + seq![cs[j]] + cs.skip(j + 1));
    lemma_children_concat(cs.take(j) + seq![cs[j]], cs.skip(j + 1));
    lemma_children_concat(cs.take(j), seq![cs[j]]);
    lemma_children_single(cs[j]);
}

pub proof fn lemma_children_prefix<T>(cs: Seq<Node<T>>, k: int)
    requires
        0 <= k < cs.len(),
    ensures
        children_view(cs.take(k + 1)) == children_view(cs.take(k)) + node_view(cs[k]),
        children_wf(cs) ==> node_wf(cs[k]),
{
    assert(cs.take(k + 1).drop_last() == cs.take(k));
    assert(cs.take(k + 1).last() == cs[k]);
    lemma_children_split(cs, k);
}

/// A lookup after an insert: the inserted element is found at the index it
/// was inserted at, the elements before it are found where they were, and
/// those after it one index further on.
pub proof fn law_lookup_after_insert<T: Ord>(before: BTree<T>, after: BTree<T>, element: T, index: int)
    requires
        0 <= index <= tree_view(before).len(),
        tree_view(after) == tree_view(before).insert(index, element),
    ensures
        tree_view(after).len() == tree_view(before).len() + 1,
        tree_view(after)[index] == element,
        forall|j: int| 0 <= j < index ==> #[trigger] tree_view(after)[j] == tree_view(before)[j],
        forall|j: int| index < j <= tree_view(before).len() ==> #[trigger] tree_view(after)[j] == tree_view(before)[j - 1],
{
}

impl<T> Node<T> {
    pub fn new() -> (n: Self)
        ensures
            n.elements@.len() == 0,
            n.children@.len() == 0,
            node_view(n) == Seq::<T>::empty(),
            node_wf(n),
    {
        Node { elements: Vec::new(), children: Vec::new() }
    }

    pub fn is_leaf(&self) -> (b: bool)
        ensures
            b == (self.children@.len() == 0),
    {
        self.children.is_empty()
    }

    /// The number of elements the node holds.
    pub fn size(&self) -> (s: usize)
        requires
            node_wf(*self),
            node_view(*self).len() <= usize::MAX,
        ensures
            s == node_view(*self).len(),
        decreases self,
    {
        if self.children.len() == 0 {
            return self.elements.len();
        }
        let ghost cs = self.children@;
        let mut acc: usize = 0;
        let mut k: usize = 0;
        proof {
            assert(cs.take(0) == Seq::<Node<T>>::empty());
        }
        while k < self.children.len()
            invariant
                cs == self.children@,
                cs.len() > 0,
                children_wf(cs),
                node_view(*self) == children_view(cs),
                children_view(cs).len() <= usize::MAX,
                k <= cs.len(),
                acc == children_view(cs.take(k as int)).len(),
            decreases cs.len() - k,
        {
            proof {
                lemma_children_prefix(cs, k as int);
                lemma_children_split(cs, k as int);
                assert(cs.take(k as int + 1) + cs.skip(k as int + 1) == cs);
                lemma_children_concat(cs.take(k as int + 1), cs.skip(k as int + 1));
                assert(self.children@[k as int] == cs[k as int]);
            }
            let s = self.children[k].size();
            acc = acc + s;
            k += 1;
        }
        proof {
            assert(cs.take(cs.len() as int) == cs);
        }
        acc
    }

    /// A clone of the element at position `idx`.
    pub fn get(&self, idx: usize) -> (res: T)
        where T: Clone,
        requires
            node_wf(*self),
            idx < node_view(*self).len(),
            node_view(*self).len() <= usize::MAX,
        ensures
            cloned::<T>(node_view(*self)[idx as int], res),
        decreases self,
    {
        if self.children.len() == 0 {
            return self.elements[idx].clone();
        }
        let ghost cs = self.children@;
        let mut acc: usize = 0;
        let mut k: usize = 0;
        proof {
            assert(cs.take(0) == Seq::<Node<T>>::empty());
        }
        while k < self.children.len()
            invariant
                cs == self.children@,
                cs.len() > 0,
                children_wf(cs),
                node_view(*self) == children_view(cs),
                children_view(cs).len() <= usize::MAX,
                k <= cs.len(),
                acc == children_view(cs.take(k as int)).len(),
                acc <= idx,
                idx < children_view(cs).len(),
            decreases cs.len() - k,
        {
            proof {
                lemma_children_prefix(cs, k as int);
                lemma_children_split(cs, k as int);
                assert(cs.take(k as int + 1) + cs.skip(k as int + 1) == cs);
                lemma_children_concat(cs.take(k as int + 1), cs.skip(k as int + 1));
                assert(self.children@[k as int] == cs[k as int]);
            }
            let s = self.children[k].size();
            if idx - acc < s {
                proof {
                    assert(children_view(cs)[idx as int] == node_view(cs[k as int])[idx - acc]);
                }
                return self.children[k].get(idx - acc);
            }
            acc = acc + s;
            k += 1;
        }
        proof {
            assert(cs.take(cs.len() as int) == cs);
        }
        self.children[0].get(0)
    }

    /// Splits off the second half of an overfull node, returning it.
    fn split(&mut self) -> (right: Node<T>)
        requires
            node_wf(*old(self)),
            old(self).children@.len() == 0 ==> old(self).elements@.len() > NODE_SIZE,
            old(self).children@.len() > NODE_SIZE || old(self).children@.len() == 0,
        ensures
            node_wf(*final(self)),
            node_wf(right),
            node_view(*final(self)) + node_view(right) == node_view(*old(self)),
    {
        if self.children.len() == 0 {
            let m = self.elements.len() / 2;
            let right_elements = self.elements.split_off(m);
            let right = Node { elements: right_elements, children: Vec::new() };
            proof {
                assert(self.elements@ + right.elements@ == old(self).elements@);
            }
            right
        } else {
            let ghost cs = self.children@;
            let m = self.children.len() / 2;
            let right_children = self.children.split_off(m);
            let right = Node { elements: Vec::new(), children: right_children };
            proof {
                assert(cs.take(m as int) + cs.skip(m as int) == cs);
                assert(self.children@ == cs.take(m as int));
                assert(right.children@ == cs.skip(m as int));
                lemma_children_concat(cs.take(m as int), cs.skip(m as int));
            }
            right
        }
    }

    /// Inserts `x` at position `idx`; returns the node split off when the
    /// node grew too large.
    fn insert_at(&mut self, idx: usize, x: T) -> (split: Option<Node<T>>)
        requires
            node_wf(*old(self)),
            idx <= node_view(*old(self)).len(),
            node_view(*old(self)).len() < usize::MAX,
        ensures
            node_wf(*final(self)),
            match split {
                None => node_view(*final(self)) == node_view(*old(self)).insert(idx as int, x),
                Some(r) => node_wf(r) && node_view(*final(self)) + node_view(r) == node_view(*old(self)).insert(idx as int, x),
            },
        decreases *old(self),
    {
        if self.children.len() == 0 {
            self.elements.insert(idx, x);
            if self.elements.len() > NODE_SIZE {
                return Some(self.split());
            }
            return None;
        }
        let ghost cs = self.children@;
        let ghost v = node_view(*self);
        let n = self.children.len();
        let mut acc: usize = 0;
        let mut k: usize = 0;
        let mut found = false;
        proof {
            assert(cs.take(0) == Seq::<Node<T>>::empty());
        }
        while !found && k + 1 < n
            invariant
                cs == self.children@,
                n == cs.len(),
                n > 0,
                self.elements@.len() == 0,
                children_wf(cs),
                v == children_view(cs),
                v.len() < usize::MAX,
                k < n,
                acc == children_view(cs.take(k as int)).len(),
                acc <= idx,
                idx <= v.len(),
                found ==> idx - acc <= node_view(cs[k as int]).len(),
            decreases n - k, if found { 0int } else { 1int },
        {
            proof {
                lemma_children_prefix(cs, k as int);
                lemma_children_split(cs, k as int);
                assert(cs.take(k as int + 1) + cs.skip(k as int + 1) == cs);
                lemma_children_concat(cs.take(k as int + 1), cs.skip(k as int + 1));
                assert(self.children@[k as int] == cs[k as int]);
            }
            let s = self.children[k].size();
            if idx - acc <= s {
                found = true;
            } else {
                acc = acc + s;
                k += 1;
            }
        }
        proof {
            lemma_children_split(cs, k as int);
            assert(cs.take(k as int + 1) + cs.skip(k as int + 1) == cs);
            lemma_children_concat(cs.take(k as int + 1), cs.skip(k as int + 1));
            lemma_children_prefix(cs, k as int);
            if k + 1 == n {
                assert(cs.skip(k as int + 1) == Seq::<Node<T>>::empty());
            }
        }
        let mut child = self.children.remove(k);
        proof {
            assert(child == cs[k as int]);
            assert(decreases_to!(*old(self) => child));
        }
        let r = child.insert_at(idx - acc, x);
        let ghost left = cs.take(k as int);
        let ghost rest = cs.skip(k as int + 1);
        let ghost cv = node_view(cs[k as int]);
        proof {
            assert(v == children_view(left) + cv + children_view(rest));
            assert(v.insert(idx as int, x) =~= children_view(left) + cv.insert(idx - acc, x) + children_view(rest));
        }
        self.children.insert(k, child);
        match r {
            None => {
                proof {
                    assert(self.children@ == left + seq![child] + rest);
                    lemma_children_single(child);
                    lemma_children_concat(left, seq![child]);
                    lemma_children_concat(left + seq![child], rest);
                }
            },
            Some(right) => {
                let ghost rv = node_view(right);
                self.children.insert(k + 1, right);
                proof {
                    assert(self.children@ == left + seq![child, right] + rest);
                    assert(seq![child, right] == seq![child] + seq![right]);
                    lemma_children_single(child);
                    lemma_children_single(right);
                    lemma_children_concat(seq![child], seq![right]);
                    lemma_children_concat(left, seq![child, right]);
                    lemma_children_concat(left + seq![child, right], rest);
                }
            },
        }
        if self.children.len() > NODE_SIZE {
            return Some(self.split());
        }
        None
    }
}

impl<T> BTree<T> where T: Ord + std::fmt::Debug {
    /// Inserts `element` at position `index` of the sequence.
    pub fn insert(&mut self, element: T, index: i32)
        requires
            tree_wf(*old(self)),
            0 <= index <= tree_view(*old(self)).len(),
            tree_view(*old(self)).len() < usize::MAX,
        ensures
            tree_wf(*final(self)),
            tree_view(*final(self)) == tree_view(*old(self)).insert(index as int, element),
    {
        match self.root.take() {
            None => {
                let mut leaf = Node::new();
                leaf.elements.push(element);
                proof {
                    assert(leaf.elements@ == Seq::<T>::empty().insert(0, element));
                }
                self.root = Some(leaf);
            },
            Some(mut node) => {
                let split = node.insert_at(index as usize, element);
                match split {
                    None => {
                        self.root = Some(node);
                    },
                    Some(right) => {
                        let ghost l = node;
                        let ghost r = right;
                        let mut children: Vec<Node<T>> = Vec::new();
                        children.push(node);
                        children.push(right);
                        proof {
                            assert(children@ == seq![l] + seq![r]);
                            lemma_children_single(l);
                            lemma_children_single(r);
                            lemma_children_concat(seq![l], seq![r]);
                        }
                        self.root = Some(Node { elements: Vec::new(), children });
                    },
                }
            },
        }
    }

    /// The element at position `i` of the sequence, with `i`, or `None` when
    /// `i` is not a position of the sequence.
    pub fn lookup_index(&self, i: i32) -> (res: Option<(T, i32)>)
        where T: Clone,
        requires
            tree_wf(*self),
            tree_view(*self).len() <= usize::MAX,
        ensures
            match res {
                Some((t, j)) => 0 <= i < tree_view(*self).len() && j == i && cloned::<T>(tree_view(*self)[i as int], t),
                None => !(0 <= i < tree_view(*self).len()),
            },
    {
        match &self.root {
            None => None,
            Some(node) => {
                if i < 0 {
                    return None;
                }
                let s = node.size();
                if (i as usize) < s {
                    Some((node.get(i as usize), i))
                } else {
                    None
                }
            },
        }
    }
}

} // verus!
