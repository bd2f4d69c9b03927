use vstd::prelude::*;

use crate::node::{
    first_named, forest_fits, forest_preorder, forest_total, lemma_first_named_append,
    lemma_first_named_spec, preorder, subtree_total, totals_fit, TreeNode,
};

verus! {

/// The sum of a sequence of integers, added from first to last.
pub open spec fn sum_ints(s: Seq<int>) -> int
    decreases s.len(),
{
    if s.len() == 0 {
        0
    } else {
        sum_ints(s.subrange(0, s.len() - 1)) + s[s.len() - 1]
    }
}

/// The totals of a sequence of nodes, one for each node.
pub open spec fn totals_of(s: Seq<TreeNode>) -> Seq<int> {
    s.map_values(|c: TreeNode| subtree_total(c))
}

/// A node without children totals its own amount, and that total always
/// fits, so `calculate_total` returns it.
pub proof fn lemma_leaf_total(n: TreeNode)
    requires
        n.children@.len() == 0,
    ensures
        subtree_total(n) == n.amount as int,
        totals_fit(n),
{
    assert(forest_total(n.children@) == 0);
    assert(forest_fits(n.children@));
}

/// `forest_total` is the sum of the totals of the nodes.
pub proof fn lemma_forest_total_is_sum(s: Seq<TreeNode>)
    ensures
        forest_total(s) == sum_ints(totals_of(s)),
    decreases s.len(),
{
    if s.len() > 0 {
        let s0 = s.subrange(0, s.len() - 1);
        lemma_forest_total_is_sum(s0);
        assert(totals_of(s).subrange(0, s.len() - 1) == totals_of(s0));
    }
}

/// The total of any node is its own amount plus the sum of the totals of
/// its children, taken in order.
pub proof fn lemma_total_sums_children(n: TreeNode)
    ensures
        subtree_total(n) == n.amount as int + sum_ints(totals_of(n.children@)),
{
    lemma_forest_total_is_sum(n.children@);
}

/// Looking up a name that no node of the tree has finds nothing.
pub proof fn lemma_absent_name_not_found(n: TreeNode, name: Seq<char>)
    requires
        forall|i: int| 0 <= i < preorder(n).len() ==> #[trigger] preorder(n)[i].name@ != name,
    ensures
        first_named(preorder(n), name) is None,
{
    lemma_first_named_spec(preorder(n), name);
}

/// Lookup returns the node that comes first in pre-order among those with
/// the name, even where later nodes share it.
pub proof fn lemma_find_takes_first_in_preorder(n: TreeNode, name: Seq<char>, i: int)
    requires
        0 <= i < preorder(n).len(),
        preorder(n)[i].name@ == name,
        forall|j: int| 0 <= j < i ==> #[trigger] preorder(n)[j].name@ != name,
    ensures
        first_named(preorder(n), name) == Some(preorder(n)[i]),
{
    let s = preorder(n);
    lemma_first_named_spec(s, name);
    let k = choose|k: int|
        0 <= k < s.len() && #[trigger] s[k] == first_named(s, name)->0 && s[k].name@ == name
            && (forall|j: int| 0 <= j < k ==> #[trigger] s[j].name@ != name);
    if k < i {
        assert(s[k].name@ != name);
    }
    if i < k {
        assert(s[i].name@ != name);
    }
}

/// After `child` is attached to `before` (giving `after`), looking up the
/// child's name from the parent finds the child, unless the parent itself
/// has that name or an earlier node of the parent's tree with that name is
/// not equal to the child.
pub proof fn lemma_find_attached_child(before: TreeNode, child: TreeNode, after: TreeNode)
    requires
        after.name == before.name,
        after.amount == before.amount,
        after.children@ == before.children@.push(child),
        before.name@ != child.name@,
        first_named(preorder(before), child.name@) is None || first_named(
            preorder(before),
            child.name@,
        ) == Some(child),
    ensures
        first_named(preorder(after), child.name@) == Some(child),
{
    let name = child.name@;
    let cs = before.children@;
    let fa = forest_preorder(after.children@);
    let fb = forest_preorder(cs);
    assert(after.children@.subrange(0, cs.len() as int) == cs);
    assert(fa == fb + preorder(child));
    assert((seq![after] + fa).drop_first() == fa);
    assert((seq![before] + fb).drop_first() == fb);
    assert(first_named(preorder(after), name) == first_named(fa, name));
    assert(first_named(preorder(before), name) == first_named(fb, name));
    lemma_first_named_append(fb, preorder(child), name);
    assert((seq![child] + forest_preorder(child.children@))[0] == child);
}

} // verus!
