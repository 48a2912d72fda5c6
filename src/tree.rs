use vstd::prelude::*;
use vstd::string::{to_string_from_display_ensures, StringExecFns};

use crate::order::{lemma_compare, lemma_less_transitive, less, strictly_increasing, total_order};
use crate::render::{displays, lemma_spaced_concat, renders, spaced};

verus! {

/// A slot that holds a subtree or nothing.
pub type Child<T> = Box<Option<Node<T>>>;

/// One stored value and the two subtrees it owns.
pub struct Node<T: Ord> {
    pub data: T,
    pub left: Child<T>,
    pub right: Child<T>,
}

/// The values of a subtree, in order: left subtree, the node, right subtree.
pub open spec fn seq_of<T: Ord>(c: Option<Node<T>>) -> Seq<T>
    decreases c,
{
    match c {
        None => Seq::empty(),
        Some(n) => seq_of(*n.left) + seq![n.data] + seq_of(*n.right),
    }
}

/// The set of values stored in a subtree.
pub open spec fn set_of<T: Ord>(c: Option<Node<T>>) -> Set<T>
    decreases c,
{
    match c {
        None => Set::empty(),
        Some(n) => set_of(*n.left).union(set_of(*n.right)).insert(n.data),
    }
}

/// The search tree property: at every node, the left subtree holds only
/// smaller values and the right subtree only greater ones.
pub open spec fn is_search_tree<T: Ord>(c: Option<Node<T>>) -> bool
    decreases c,
{
    match c {
        None => true,
        Some(n) => {
            &&& forall|x: T| set_of(*n.left).contains(x) ==> less(x, n.data)
            &&& forall|x: T| set_of(*n.right).contains(x) ==> less(n.data, x)
            &&& is_search_tree(*n.left)
            &&& is_search_tree(*n.right)
        },
    }
}

/// The subtree `c` with `data` placed in the empty slot that a search for it
/// reaches; unchanged if an equal value is already there.
pub open spec fn with_inserted<T: Ord>(c: Option<Node<T>>, data: T) -> Option<Node<T>>
    decreases c,
{
    match c {
        None => Some(Node { data, left: Box::new(None), right: Box::new(None) }),
        Some(n) => if less(data, n.data) {
            Some(Node { data: n.data, left: Box::new(with_inserted(*n.left, data)), right: n.right })
        } else if less(n.data, data) {
            Some(Node { data: n.data, left: n.left, right: Box::new(with_inserted(*n.right, data)) })
        } else {
            c
        },
    }
}

/// The subtree `c` with `sub` hung in the empty left slot reached by
/// descending left from its root; `sub` itself if `c` is empty.
pub open spec fn hung_leftmost<T: Ord>(c: Option<Node<T>>, sub: Option<Node<T>>) -> Option<
    Node<T>,
>
    decreases c,
{
    match c {
        None => sub,
        Some(n) => Some(
            Node { data: n.data, left: Box::new(hung_leftmost(*n.left, sub)), right: n.right },
        ),
    }
}

/// The subtree `c` with the node equal to `data` removed: its right subtree
/// takes its place, with its left subtree hung below the leftmost node of
/// that right subtree. Unchanged if no node equals `data`.
pub open spec fn with_deleted<T: Ord>(c: Option<Node<T>>, data: T) -> Option<Node<T>>
    decreases c,
{
    match c {
        None => None,
        Some(n) => if less(data, n.data) {
            Some(Node { data: n.data, left: Box::new(with_deleted(*n.left, data)), right: n.right })
        } else if less(n.data, data) {
            Some(Node { data: n.data, left: n.left, right: Box::new(with_deleted(*n.right, data)) })
        } else {
            hung_leftmost(*n.right, *n.left)
        },
    }
}

/// The in-order values of a search tree are strictly increasing, and they are
/// exactly the values it stores.
pub proof fn lemma_in_order_increasing<T: Ord>(c: Option<Node<T>>)
    requires
        total_order::<T>(),
        is_search_tree(c),
    ensures
        strictly_increasing(seq_of(c)),
        forall|x: T| seq_of(c).contains(x) <==> set_of(c).contains(x),
    decreases c,
{
    match c {
        None => {},
        Some(n) => {
            lemma_in_order_increasing(*n.left);
            lemma_in_order_increasing(*n.right);
            let l = seq_of(*n.left);
            let r = seq_of(*n.right);
            let s = seq_of(c);
            let k = l.len() as int;
            assert forall|x: T| s.contains(x) <==> set_of(c).contains(x) by {
                if s.contains(x) {
                    let i = choose|i: int| 0 <= i < s.len() && s[i] == x;
                    if i < k {
                        assert(l[i] == x);
                        assert(l.contains(x));
                    } else if i > k {
                        assert(r[i - k - 1] == x);
                        assert(r.contains(x));
                    }
                }
                if set_of(c).contains(x) {
                    if l.contains(x) {
                        let i = choose|i: int| 0 <= i < l.len() && l[i] == x;
                        assert(s[i] == x);
                    } else if r.contains(x) {
                        let i = choose|i: int| 0 <= i < r.len() && r[i] == x;
                        assert(s[i + k + 1] == x);
                    } else {
                        assert(s[k] == x);
                    }
                }
            }
            assert forall|i: int, j: int| 0 <= i < j < s.len() implies less(s[i], s[j]) by {
                if i < k {
                    assert(s[i] == l[i]);
                    assert(l.contains(l[i]));
                }
                if j > k {
                    assert(s[j] == r[j - k - 1]);
                    assert(r.contains(r[j - k - 1]));
                }
                if i > k {
                    assert(s[i] == r[i - k - 1]);
                }
                if j < k {
                    assert(s[j] == l[j]);
                }
                if i < k && j > k {
                    lemma_less_transitive(s[i], n.data, s[j]);
                }
            }
        },
    }
}

impl<T: Ord> Node<T> {
    /// A leaf holding `data`.
    pub fn new(data: T) -> (r: Self)
        ensures
            r.data == data,
            *r.left == None::<Node<T>>,
            *r.right == None::<Node<T>>,
    {
        Node { data, left: Box::new(None), right: Box::new(None) }
    }
}

/// An unbalanced binary search tree that owns all of its nodes.
pub struct Tree<T: Ord> {
    pub root: Child<T>,
}

impl<T: Ord> View for Tree<T> {
    type V = Set<T>;

    /// The set of values in the tree.
    open spec fn view(&self) -> Set<T> {
        set_of(*self.root)
    }
}

impl<T: Ord> Tree<T> {
    /// The tree keeps the search tree property.
    pub open spec fn wf(&self) -> bool {
        is_search_tree(*self.root)
    }

    /// The values of the tree in order.
    pub open spec fn values(&self) -> Seq<T> {
        seq_of(*self.root)
    }

    /// An empty tree.
    pub fn new() -> (r: Self)
        ensures
            r.wf(),
            r@ == Set::<T>::empty(),
            r.values() == Seq::<T>::empty(),
    {
        Tree { root: Box::new(None) }
    }

    /// Adds `data` unless an equal value is already stored, in which case the
    /// tree is left exactly as it was.
    pub fn insert(&mut self, data: T)
        requires
            total_order::<T>(),
            old(self).wf(),
        ensures
            final(self).wf(),
            final(self)@ == old(self)@.insert(data),
            *final(self).root == with_inserted(*old(self).root, data),
            old(self)@.contains(data) ==> *final(self) == *old(self),
            old(self)@.contains(data) ==> final(self).values() == old(self).values(),
    {
        Self::insert_inner(&mut self.root, data)
    }

    fn insert_inner(root: &mut Child<T>, data: T)
        requires
            total_order::<T>(),
            is_search_tree(**old(root)),
        ensures
            is_search_tree(**final(root)),
            set_of(**final(root)) == set_of(**old(root)).insert(data),
            set_of(**old(root)).contains(data) ==> **final(root) == **old(root),
            **final(root) == with_inserted(**old(root), data),
        decreases **old(root),
    {
        match **root {
            Some(ref mut node) => {
                proof {
                    lemma_compare(node.data, data);
                }
                if node.data > data {
                    proof {
                        if set_of(*node.right).contains(data) {
                            lemma_compare(data, node.data);
                        }
                    }
                    Self::insert_inner(&mut node.left, data);
                } else if node.data < data {
                    proof {
                        if set_of(*node.left).contains(data) {
                            lemma_compare(data, node.data);
                        }
                    }
                    Self::insert_inner(&mut node.right, data);
                } else {
                    return;
                }
            },
            None => {
                let new_node = Node::<T>::new(data);
                **root = Some(new_node);
            },
        }
    }

    /// Removes the value equal to `data`, if one is stored; otherwise the tree
    /// is left exactly as it was. The removed node's right subtree takes its
    /// place, and its left subtree is hung below the leftmost node of that
    /// right subtree.
    pub fn delete(&mut self, data: T)
        requires
            total_order::<T>(),
            old(self).wf(),
        ensures
            final(self).wf(),
            final(self)@ == old(self)@.remove(data),
            *final(self).root == with_deleted(*old(self).root, data),
            !old(self)@.contains(data) ==> *final(self) == *old(self),
            !old(self)@.contains(data) ==> final(self).values() == old(self).values(),
    {
        Self::delete_inner(&mut self.root, data)
    }

    fn delete_inner(root: &mut Child<T>, data: T)
        requires
            total_order::<T>(),
            is_search_tree(**old(root)),
        ensures
            is_search_tree(**final(root)),
            set_of(**final(root)) == set_of(**old(root)).remove(data),
            !set_of(**old(root)).contains(data) ==> **final(root) == **old(root),
            **final(root) == with_deleted(**old(root), data),
        decreases **old(root),
    {
        match **root {
            Some(ref mut node) => {
                proof {
                    lemma_compare(node.data, data);
                }
                if node.data > data {
                    proof {
                        if set_of(*node.right).contains(data) {
                            lemma_compare(data, node.data);
                        }
                    }
                    Self::delete_inner(&mut node.left, data);
                } else if node.data < data {
                    proof {
                        if set_of(*node.left).contains(data) {
                            lemma_compare(data, node.data);
                        }
                    }
                    Self::delete_inner(&mut node.right, data);
                } else {
                    let mut detached: Child<T> = Box::new(None);
                    std::mem::swap(root, &mut detached);
                    match *detached {
                        Some(removed) => {
                            proof {
                                assert forall|x: T, y: T|
                                    set_of(*removed.left).contains(x) && set_of(
                                        *removed.right,
                                    ).contains(y) implies less(x, y) by {
                                    lemma_less_transitive(x, removed.data, y);
                                }
                                if set_of(*removed.left).contains(data) {
                                    lemma_compare(data, data);
                                }
                                if set_of(*removed.right).contains(data) {
                                    lemma_compare(data, data);
                                }
                            }
                            *root = removed.right;
                            Self::attach_leftmost(root, removed.left);
                        },
                        None => {},
                    }
                }
            },
            None => {},
        }
    }

    /// Hangs `sub` in the empty left slot reached by descending left from
    /// `slot`; every value of `sub` is smaller than every value under `slot`.
    fn attach_leftmost(slot: &mut Child<T>, sub: Child<T>)
        requires
            total_order::<T>(),
            is_search_tree(**old(slot)),
            is_search_tree(*sub),
            forall|x: T, y: T|
                set_of(*sub).contains(x) && set_of(**old(slot)).contains(y) ==> less(x, y),
        ensures
            is_search_tree(**final(slot)),
            set_of(**final(slot)) == set_of(*sub).union(set_of(**old(slot))),
            seq_of(**final(slot)) == seq_of(*sub) + seq_of(**old(slot)),
            **final(slot) == hung_leftmost(**old(slot), *sub),
        decreases **old(slot),
    {
        match **slot {
            Some(ref mut node) => {
                Self::attach_leftmost(&mut node.left, sub);
            },
            None => {
                *slot = sub;
            },
        }
    }

    /// Reports whether a value equal to `data` is stored.
    pub fn lookup(&mut self, data: T) -> (r: bool)
        requires
            total_order::<T>(),
            old(self).wf(),
        ensures
            r == old(self)@.contains(data),
            *final(self) == *old(self),
    {
        Self::lookup_inner(&self.root, data)
    }

    fn lookup_inner(root: &Child<T>, data: T) -> (r: bool)
        requires
            total_order::<T>(),
            is_search_tree(**root),
        ensures
            r == set_of(**root).contains(data),
        decreases **root,
    {
        match **root {
            Some(ref node) => {
                proof {
                    lemma_compare(node.data, data);
                }
                if node.data > data {
                    proof {
                        if set_of(*node.right).contains(data) {
                            lemma_compare(data, node.data);
                        }
                    }
                    Self::lookup_inner(&node.left, data)
                } else if node.data < data {
                    proof {
                        if set_of(*node.left).contains(data) {
                            lemma_compare(data, node.data);
                        }
                    }
                    Self::lookup_inner(&node.right, data)
                } else {
                    true
                }
            },
            None => false,
        }
    }
}

impl<T: Ord + std::fmt::Display> Tree<T> {
    /// The values in order, each written by its `Display` impl and followed
    /// by a single space.
    pub fn to_string(&self) -> (r: String)
        ensures
            renders(self.values(), r@),
    {
        let mut out = String::new();
        let words = Self::traverse_tree(&self.root, &mut out);
        proof {
            assert(spaced(Seq::empty()) + spaced(words@) == spaced(words@));
            assert(displays(self.values(), words@) && out@ == spaced(words@));
        }
        out
    }

    fn traverse_tree(root: &Child<T>, out: &mut String) -> (words: Ghost<Seq<String>>)
        ensures
            displays(seq_of(**root), words@),
            final(out)@ == old(out)@ + spaced(words@),
        decreases **root,
    {
        match **root {
            Some(ref node) => {
                let left = Self::traverse_tree(&node.left, out);
                let word = node.data.to_string();
                out.append(word.as_str());
                out.append(" ");
                let right = Self::traverse_tree(&node.right, out);
                let words = Ghost(left@ + seq![word] + right@);
                proof {
                    reveal_strlit(" ");
                    lemma_spaced_concat(left@, seq![word]);
                    lemma_spaced_concat(left@ + seq![word], right@);
                    assert(seq![word].drop_last() == Seq::<String>::empty());
                    assert(spaced(seq![word].drop_last()) == Seq::<char>::empty());
                    assert(spaced(seq![word]) =~= word@ + seq![' ']);
                    assert(final(out)@ == old(out)@ + spaced(left@) + word@ + seq![' '] + spaced(
                        right@,
                    ));
                    let s = seq_of(**root);
                    assert forall|i: int| 0 <= i < s.len() implies to_string_from_display_ensures::<T>(&s[i], words@[i]) by {
                        if i < left@.len() {
                        } else if i == left@.len() {
                        } else {
                            assert(s[i] == seq_of(*node.right)[i - left@.len() - 1]);
                        }
                    }
                }
                words
            },
            None => Ghost(Seq::empty()),
        }
    }
}

} // verus!
