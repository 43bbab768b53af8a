//! A binary tree of `i32` values whose children are shared through `Rc`, and
//! two ways of summing its values: with an explicit stack and by recursion.

use vstd::prelude::*;
use std::rc::Rc;

verus! {

/// A node of the tree: a value and up to two children.
#[derive(Debug, Clone)]
pub struct TreeNode {
    pub val: i32,
    pub left: Option<TreeNodeRef>,
    pub right: Option<TreeNodeRef>,
}

/// A shared handle to a node.
pub type TreeNodeRef = Rc<TreeNode>;

impl TreeNode {
    /// The sum of every value in the tree rooted here.
    pub open spec fn total(&self) -> int
        decreases self,
    {
        self.val + match self.left {
            Some(l) => l.total(),
            None => 0,
        } + match self.right {
            Some(r) => r.total(),
            None => 0,
        }
    }

    /// Every subtree's sum lies in the range of `i32`.
    pub open spec fn sums_fit(&self) -> bool
        decreases self,
    {
        &&& i32::MIN <= self.total() <= i32::MAX
        &&& match self.left {
            Some(l) => l.sums_fit(),
            None => true,
        }
        &&& match self.right {
            Some(r) => r.sums_fit(),
            None => true,
        }
    }

    /// The values in the order in which the stack-based sum visits them: a
    /// node, then its right subtree, then its left subtree.
    pub open spec fn visit_order(&self) -> Seq<i32>
        decreases self,
    {
        seq![self.val] + match self.right {
            Some(r) => r.visit_order(),
            None => Seq::empty(),
        } + match self.left {
            Some(l) => l.visit_order(),
            None => Seq::empty(),
        }
    }

    /// Every running total taken along `visit_order` lies in the range of `i32`.
    pub open spec fn running_totals_fit(&self) -> bool {
        forall|k: int| 0 <= k <= self.visit_order().len()
            ==> i32::MIN <= #[trigger] seq_sum(self.visit_order().take(k)) <= i32::MAX
    }
}

/// The sum of a sequence of values.
pub open spec fn seq_sum(s: Seq<i32>) -> int
    decreases s.len(),
{
    if s.len() == 0 {
        0
    } else {
        seq_sum(s.drop_last()) + s.last()
    }
}

/// The visit order of an optional subtree.
spec fn opt_order(t: Option<TreeNodeRef>) -> Seq<i32> {
    match t {
        Some(n) => n.visit_order(),
        None => Seq::empty(),
    }
}

/// The values still to be visited, from the top of the stack down.
spec fn pending(stack: Seq<&TreeNode>) -> Seq<i32>
    decreases stack.len(),
{
    if stack.len() == 0 {
        Seq::empty()
    } else {
        stack.last().visit_order() + pending(stack.drop_last())
    }
}

/// Pushing a node puts its whole visit order in front of what was pending.
proof fn lemma_pending_push<'a>(stack: Seq<&'a TreeNode>, n: &'a TreeNode)
    ensures
        pending(stack.push(n)) == n.visit_order() + pending(stack),
{
    assert(stack.push(n).drop_last() =~= stack);
}

/// Appending a value adds it to the sum.
proof fn lemma_seq_sum_push(s: Seq<i32>, x: i32)
    ensures
        seq_sum(s.push(x)) == seq_sum(s) + x,
{
    assert(s.push(x).drop_last() =~= s);
}

/// The sum of a concatenation is the sum of the sums.
proof fn lemma_seq_sum_concat(a: Seq<i32>, b: Seq<i32>)
    ensures
        seq_sum(a + b) == seq_sum(a) + seq_sum(b),
    decreases b.len(),
{
    if b.len() == 0 {
        assert(a + b =~= a);
    } else {
        lemma_seq_sum_concat(a, b.drop_last());
        assert((a + b).drop_last() =~= a + b.drop_last());
    }
}

/// The values in visit order add up to the tree's total.
proof fn lemma_visit_sum(t: &TreeNode)
    ensures
        seq_sum(t.visit_order()) == t.total(),
    decreases t,
{
    let r = opt_order(t.right);
    let l = opt_order(t.left);
    match &t.right {
        Some(n) => lemma_visit_sum(&**n),
        None => {},
    }
    match &t.left {
        Some(n) => lemma_visit_sum(&**n),
        None => {},
    }
    lemma_seq_sum_concat(seq![t.val], r);
    lemma_seq_sum_concat(seq![t.val] + r, l);
    lemma_seq_sum_push(Seq::empty(), t.val);
    assert(seq![t.val] =~= Seq::<i32>::empty().push(t.val));
    assert(t.visit_order() =~= seq![t.val] + r + l);
}

/// Sums the tree's values, visiting the nodes with an explicit stack: a node,
/// then its right subtree, then its left subtree. Every running total along
/// that order must fit in `i32`.
pub fn tree_sum(root: TreeNodeRef) -> (r: i32)
    requires
        root.running_totals_fit(),
    ensures
        r == root.total(),
{
    let ghost order = root.visit_order();
    let ghost mut done: Seq<i32> = Seq::empty();
    let mut sum: i32 = 0;
    let mut stack: Vec<&TreeNode> = Vec::new();
    stack.push(&*root);
    proof {
        lemma_pending_push(Seq::empty(), &*root);
        assert(stack@ =~= Seq::<&TreeNode>::empty().push(&*root));
        assert(done + pending(stack@) =~= order);
    }
    while stack.len() > 0
        invariant
            root.running_totals_fit(),
            order == root.visit_order(),
            order == done + pending(stack@),
            sum == seq_sum(done),
        decreases order.len() - done.len(),
    {
        let ghost before = stack@;
        let current = stack.pop().unwrap();
        let ghost rest = stack@;
        proof {
            assert(before =~= rest.push(current));
            lemma_pending_push(rest, current);
            assert(current.visit_order() =~= seq![current.val] + opt_order(current.right)
                + opt_order(current.left));
            assert(order.take(done.len() + 1int) =~= done.push(current.val));
            assert(i32::MIN <= seq_sum(root.visit_order().take(done.len() + 1int)) <= i32::MAX);
            lemma_seq_sum_push(done, current.val);
        }
        sum = sum + current.val;
        proof {
            done = done.push(current.val);
        }
        if let Some(left) = &current.left {
            proof {
                lemma_pending_push(stack@, &**left);
            }
            stack.push(&**left);
        }
        assert(pending(stack@) =~= opt_order(current.left) + pending(rest));
        let ghost mid = stack@;
        if let Some(right) = &current.right {
            proof {
                lemma_pending_push(stack@, &**right);
            }
            stack.push(&**right);
        }
        assert(pending(stack@) =~= opt_order(current.right) + pending(mid));
        assert(order =~= done + pending(stack@));
    }
    proof {
        assert(order =~= done);
        lemma_visit_sum(&*root);
    }
    sum
}

/// Sums the values of an optional tree by recursion; an absent tree sums to 0.
pub fn tree_sum_recur(root: Option<&TreeNodeRef>) -> (r: i32)
    requires
        match root {
            Some(n) => n.sums_fit(),
            None => true,
        },
    ensures
        r == match root {
            Some(n) => n.total(),
            None => 0,
        },
    decreases root,
{
    if let Some(root) = root {
        let left = tree_sum_recur(root.left.as_ref());
        let right = tree_sum_recur(root.right.as_ref());
        return (root.val as i64 + left as i64 + right as i64) as i32;
    }
    0
}

} // verus!
