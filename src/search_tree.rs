//! A set container stored as an unbalanced binary search tree.
//!
//! A node's right subtree holds the values that compare less than the node's
//! value, and its left subtree the values that compare greater.

use vstd::prelude::*;
use vstd::laws_cmp::{obeys_cmp, obeys_cmp_ord, obeys_cmp_partial_ord, obeys_partial_cmp_spec_properties};
use vstd::laws_eq::obeys_concrete_eq;
use vstd::set_lib::lemma_set_disjoint_lens;
use vstd::std_specs::cmp::{OrdSpec, PartialEqSpec, PartialOrdSpec};
use core::cmp::Ordering;

verus! {

/// `T`'s comparison is a total order whose equality is identity.
pub open spec fn is_total_order<T: Ord>() -> bool {
    &&& obeys_cmp::<T>()
    &&& obeys_concrete_eq::<T>()
}

/// Under a total order, comparisons obey their trait contracts, and a
/// comparison that is neither less nor greater means the values are equal.
proof fn lemma_compare<T: Ord>(a: T, b: T)
    requires
        is_total_order::<T>(),
    ensures
        T::obeys_partial_cmp_spec(),
        T::obeys_eq_spec(),
        a.partial_cmp_spec(&b) == Some(Ordering::Less) || a.partial_cmp_spec(&b) == Some(Ordering::Equal)
            || a.partial_cmp_spec(&b) == Some(Ordering::Greater),
        a.partial_cmp_spec(&b) == Some(Ordering::Equal) <==> a == b,
        a.partial_cmp_spec(&b) == Some(Ordering::Less) <==> b.partial_cmp_spec(&a) == Some(Ordering::Greater),
{
    reveal(obeys_cmp_partial_ord);
    reveal(obeys_cmp_ord);
    reveal(obeys_partial_cmp_spec_properties);
    reveal(obeys_concrete_eq);
    assert(a.partial_cmp_spec(&b) == Some(a.cmp_spec(&b)));
}

/// A node of the tree: a stored value and its two children.
struct Node<T: Ord> {
    value: T,
    left: Subtree<T>,
    right: Subtree<T>,
}

/// A possibly empty subtree.
struct Subtree<T: Ord>(Option<Box<Node<T>>>);

impl<T: Ord> Subtree<T> {
    /// The values stored in this subtree.
    spec fn values(self) -> Set<T>
        decreases self,
    {
        match self.0 {
            None => Set::empty(),
            Some(node) => node.left.values().union(node.right.values()).insert(node.value),
        }
    }

    /// Every node orders its children: lesser values right, greater values left.
    spec fn well_formed(self) -> bool
        decreases self,
    {
        match self.0 {
            None => true,
            Some(node) => {
                &&& forall|x: T| #[trigger] node.right.values().contains(x)
                    ==> node.value.partial_cmp_spec(&x) == Some(Ordering::Greater)
                &&& forall|x: T| #[trigger] node.left.values().contains(x)
                    ==> node.value.partial_cmp_spec(&x) == Some(Ordering::Less)
                &&& node.left.well_formed()
                &&& node.right.well_formed()
            },
        }
    }

    /// The number of nodes in this subtree.
    spec fn size(self) -> nat
        decreases self,
    {
        match self.0 {
            None => 0,
            Some(node) => 1 + node.left.size() + node.right.size(),
        }
    }

    /// In a well-formed subtree no two nodes hold equal values, so the nodes
    /// and the stored values are equally many.
    proof fn lemma_size(self)
        requires
            is_total_order::<T>(),
            self.well_formed(),
        ensures
            self.values().finite(),
            self.values().len() == self.size(),
        decreases self,
    {
        match self.0 {
            None => {},
            Some(node) => {
                node.left.lemma_size();
                node.right.lemma_size();
                let l = node.left.values();
                let r = node.right.values();
                assert(l.disjoint(r)) by {
                    assert forall|x: T| l.contains(x) implies !r.contains(x) by {}
                }
                lemma_set_disjoint_lens(l, r);
                if l.union(r).contains(node.value) {
                    lemma_compare(node.value, node.value);
                }
            },
        }
    }

    /// Adds `val` below this subtree: lesser values go right, greater values
    /// go left, and an equal value is already present.
    fn insert(&mut self, val: T)
        requires
            is_total_order::<T>(),
            old(self).well_formed(),
        ensures
            final(self).well_formed(),
            final(self).values() == old(self).values().insert(val),
        decreases *old(self),
    {
        match &mut self.0 {
            None => {
                self.0 = Some(Box::new(Node { value: val, left: Subtree(None), right: Subtree(None) }));
                assert(Subtree::<T>(None).values() =~= Set::empty());
                assert(self.values() =~= old(self).values().insert(val));
            },
            Some(node) => {
                let ghost v = node.value;
                proof {
                    lemma_compare(v, val);
                }
                if node.value > val {
                    node.right.insert(val);
                } else if node.value < val {
                    node.left.insert(val);
                } else {
                    assert(v == val);
                }
                assert(self.values() =~= old(self).values().insert(val));
            },
        }
    }
}

/// Counts the nodes of a subtree.
fn recur_sum<T: Ord>(root: &Subtree<T>) -> (r: i32)
    requires
        is_total_order::<T>(),
        root.well_formed(),
        root.values().len() <= i32::MAX,
    ensures
        r == root.values().len(),
    decreases root,
{
    proof {
        root.lemma_size();
    }
    match &root.0 {
        None => 0,
        Some(node) => {
            proof {
                node.left.lemma_size();
                node.right.lemma_size();
            }
            let mut sum: i32 = 1;
            sum = sum + recur_sum(&node.left) + recur_sum(&node.right);
            sum
        },
    }
}

/// Whether any node of a subtree holds a value equal to `val`. Both children
/// are searched, whatever the ordering.
fn recur_has<T: Ord>(root: &Subtree<T>, val: &T) -> (r: bool)
    requires
        is_total_order::<T>(),
    ensures
        r == root.values().contains(*val),
    decreases root,
{
    match &root.0 {
        None => false,
        Some(node) => {
            proof {
                lemma_compare(node.value, *val);
                reveal(obeys_concrete_eq);
            }
            if node.value.eq(val) {
                return true;
            }
            recur_has(&node.left, val) || recur_has(&node.right, val)
        },
    }
}

/// A container storing a set of values, using a binary tree.
///
/// If the same value is added multiple times, it is only stored once.
pub struct BinaryTree<T: Ord> {
    root: Subtree<T>,
}

impl<T: Ord> View for BinaryTree<T> {
    type V = Set<T>;

    closed spec fn view(&self) -> Set<T> {
        self.root.values()
    }
}

impl<T: Ord> BinaryTree<T> {
    /// The tree keeps its ordering: every node holds lesser values in its
    /// right subtree and greater values in its left subtree.
    pub closed spec fn well_formed(&self) -> bool {
        self.root.well_formed()
    }

    /// An empty set.
    pub fn new() -> (t: Self)
        ensures
            t.well_formed(),
            t@ == Set::<T>::empty(),
            t@.len() == 0,
    {
        BinaryTree { root: Subtree(None) }
    }

    /// Adds `val` to the set; a value already present leaves the tree as it is.
    pub fn insert(&mut self, val: T)
        requires
            is_total_order::<T>(),
            old(self).well_formed(),
        ensures
            final(self).well_formed(),
            final(self)@ == old(self)@.insert(val),
    {
        self.root.insert(val)
    }

    /// The number of values in the set.
    pub fn len(&self) -> (r: i32)
        requires
            is_total_order::<T>(),
            self.well_formed(),
            self@.len() <= i32::MAX,
        ensures
            r == self@.len(),
    {
        recur_sum(&self.root)
    }

    /// Whether the set holds `val`.
    pub fn has(&self, val: &T) -> (r: bool)
        requires
            is_total_order::<T>(),
        ensures
            r == self@.contains(*val),
    {
        recur_has(&self.root, val)
    }
}

/// The set reached from `s` by inserting the values of `vs`, first to last.
pub open spec fn after_inserts<T>(s: Set<T>, vs: Seq<T>) -> Set<T>
    decreases vs.len(),
{
    if vs.len() == 0 {
        s
    } else {
        after_inserts(s, vs.drop_last()).insert(vs.last())
    }
}

/// Inserting a sequence of values into an empty set leaves exactly the
/// values of the sequence.
proof fn lemma_after_inserts_from_empty<T>(vs: Seq<T>)
    ensures
        after_inserts(Set::<T>::empty(), vs) == vs.to_set(),
    decreases vs.len(),
{
    if vs.len() > 0 {
        lemma_after_inserts_from_empty(vs.drop_last());
        assert(vs.to_set() =~= vs.drop_last().to_set().insert(vs.last())) by {
            assert forall|x: T| vs.contains(x) implies vs.drop_last().contains(x) || x == vs.last() by {
                let i = choose|i: int| 0 <= i < vs.len() && vs[i] == x;
                if i < vs.len() - 1 {
                    assert(vs.drop_last()[i] == x);
                }
            }
            assert forall|x: T| vs.drop_last().contains(x) implies vs.contains(x) by {
                let i = choose|i: int| 0 <= i < vs.len() - 1 && vs.drop_last()[i] == x;
                assert(vs[i] == x);
            }
            assert(vs[vs.len() - 1] == vs.last());
        }
    }
    assert(after_inserts(Set::<T>::empty(), vs) =~= vs.to_set());
}

/// A tree built by inserting a sequence of values holds as many values as the
/// sequence has distinct values; with no repeats, as many as the sequence is
/// long.
pub proof fn law_len_counts_distinct<T>(vs: Seq<T>)
    ensures
        after_inserts(Set::<T>::empty(), vs).finite(),
        after_inserts(Set::<T>::empty(), vs).len() == vs.to_set().len(),
        vs.no_duplicates() ==> after_inserts(Set::<T>::empty(), vs).len() == vs.len(),
{
    broadcast use vstd::seq_lib::seq_to_set_is_finite;
    lemma_after_inserts_from_empty(vs);
    if vs.no_duplicates() {
        vs.unique_seq_to_set();
    }
}

/// A value that was never inserted is not found.
pub proof fn law_absent_not_found<T>(vs: Seq<T>, v: T)
    requires
        !vs.contains(v),
    ensures
        !after_inserts(Set::<T>::empty(), vs).contains(v),
{
    lemma_after_inserts_from_empty(vs);
}

/// A value inserted at least once is found, however often it was inserted.
pub proof fn law_inserted_found<T>(vs: Seq<T>, v: T)
    requires
        vs.contains(v),
    ensures
        after_inserts(Set::<T>::empty(), vs).contains(v),
{
    lemma_after_inserts_from_empty(vs);
}

/// Inserting a value twice leaves the tree holding the same values as
/// inserting it once, so its length and every membership query agree.
pub proof fn law_insert_idempotent<T: Ord>(t: BinaryTree<T>, v: T)
    ensures
        after_inserts(t@, seq![v, v]) == after_inserts(t@, seq![v]),
{
    assert(seq![v, v].drop_last() =~= seq![v]);
    assert(seq![v].drop_last() =~= Seq::<T>::empty());
    assert(after_inserts(t@, seq![v, v]) =~= after_inserts(t@, seq![v]));
}

} // verus!
