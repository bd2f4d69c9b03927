use vstd::prelude::*;

verus! {

/// A node of an ownership tree: a name, an amount of its own (in the
/// smallest unit of the currency, e.g. cents), and its children in the
/// order in which they were attached.
#[derive(Debug)]
pub struct TreeNode {
    pub name: String,
    pub amount: i64,
    pub children: Vec<TreeNode>,
}

/// The total of a node: its own amount plus the totals of its children.
pub open spec fn subtree_total(n: TreeNode) -> int
    decreases n,
{
    n.amount as int + forest_total(n.children@)
}

/// The sum of the totals of a sequence of nodes, added from first to last.
pub open spec fn forest_total(s: Seq<TreeNode>) -> int
    decreases s,
{
    if s.len() == 0 {
        0
    } else {
        forest_total(s.subrange(0, s.len() - 1)) + subtree_total(s[s.len() - 1])
    }
}

/// Whether a value can be held by an `i64`.
pub open spec fn fits_i64(x: int) -> bool {
    i64::MIN <= x <= i64::MAX
}

/// Whether the total of this node, and of every node below it, can be
/// held by an `i64`.
pub open spec fn totals_fit(n: TreeNode) -> bool
    decreases n,
{
    fits_i64(subtree_total(n)) && forest_fits(n.children@)
}

/// Whether `totals_fit` holds of every node of a sequence.
pub open spec fn forest_fits(s: Seq<TreeNode>) -> bool
    decreases s,
{
    if s.len() == 0 {
        true
    } else {
        forest_fits(s.subrange(0, s.len() - 1)) && totals_fit(s[s.len() - 1])
    }
}

/// The nodes of a tree in pre-order: the node itself, then the nodes of
/// each child's subtree, children in order.
pub open spec fn preorder(n: TreeNode) -> Seq<TreeNode>
    decreases n,
{
    seq![n] + forest_preorder(n.children@)
}

/// The pre-orders of a sequence of subtrees, one after the other.
pub open spec fn forest_preorder(s: Seq<TreeNode>) -> Seq<TreeNode>
    decreases s,
{
    if s.len() == 0 {
        Seq::empty()
    } else {
        forest_preorder(s.subrange(0, s.len() - 1)) + preorder(s[s.len() - 1])
    }
}

/// The first node of `s` whose name is `name`, if any.
pub open spec fn first_named(s: Seq<TreeNode>, name: Seq<char>) -> Option<TreeNode>
    decreases s.len(),
{
    if s.len() == 0 {
        None
    } else if s[0].name@ == name {
        Some(s[0])
    } else {
        first_named(s.drop_first(), name)
    }
}

/// `forest_fits` of a sequence asks `totals_fit` of each of its nodes.
pub proof fn lemma_forest_fits_index(s: Seq<TreeNode>, i: int)
    requires
        0 <= i < s.len(),
        forest_fits(s),
    ensures
        totals_fit(s[i]),
    decreases s.len(),
{
    if i < s.len() - 1 {
        let t = s.subrange(0, s.len() - 1);
        lemma_forest_fits_index(t, i);
        assert(t[i] == s[i]);
    }
}

/// The first match in a concatenation is the first match in its front
/// part, or else the first match in its back part.
pub proof fn lemma_first_named_append(a: Seq<TreeNode>, b: Seq<TreeNode>, name: Seq<char>)
    ensures
        first_named(a + b, name) == (if first_named(a, name) is Some {
            first_named(a, name)
        } else {
            first_named(b, name)
        }),
    decreases a.len(),
{
    if a.len() == 0 {
        assert(a + b == b);
    } else {
        assert((a + b)[0] == a[0]);
        assert((a + b).drop_first() == a.drop_first() + b);
        lemma_first_named_append(a.drop_first(), b, name);
    }
}

/// The pre-order of two sequences of subtrees, one after the other.
pub proof fn lemma_forest_preorder_append(a: Seq<TreeNode>, b: Seq<TreeNode>)
    ensures
        forest_preorder(a + b) == forest_preorder(a) + forest_preorder(b),
    decreases b.len(),
{
    if b.len() == 0 {
        assert(a + b == a);
        assert(forest_preorder(a) + forest_preorder(b) == forest_preorder(a));
    } else {
        let ab = a + b;
        let b0 = b.subrange(0, b.len() - 1);
        assert(ab.subrange(0, ab.len() - 1) == a + b0);
        assert(ab[ab.len() - 1] == b[b.len() - 1]);
        lemma_forest_preorder_append(a, b0);
        assert(forest_preorder(ab) == forest_preorder(a) + forest_preorder(b0) + preorder(
            b[b.len() - 1],
        ));
        assert(forest_preorder(a) + forest_preorder(b0) + preorder(b[b.len() - 1])
            == forest_preorder(a) + (forest_preorder(b0) + preorder(b[b.len() - 1])));
    }
}

/// What `first_named` returns: `None` exactly when no node of `s` has the
/// name, and otherwise the node at the earliest position that has it.
pub proof fn lemma_first_named_spec(s: Seq<TreeNode>, name: Seq<char>)
    ensures
        first_named(s, name) is None <==> (forall|i: int| 0 <= i < s.len() ==> #[trigger] s[i].name@ != name),
        first_named(s, name) is Some ==> exists|i: int|
            0 <= i < s.len() && #[trigger] s[i] == first_named(s, name)->0 && s[i].name@ == name
                && (forall|j: int| 0 <= j < i ==> #[trigger] s[j].name@ != name),
    decreases s.len(),
{
    if s.len() > 0 {
        let t = s.drop_first();
        lemma_first_named_spec(t, name);
        assert(forall|i: int| 0 <= i < t.len() ==> #[trigger] t[i] == s[i + 1]);
        if s[0].name@ != name {
            if first_named(t, name) is Some {
                let i = choose|i: int|
                    0 <= i < t.len() && #[trigger] t[i] == first_named(t, name)->0 && t[i].name@
                        == name && (forall|j: int| 0 <= j < i ==> #[trigger] t[j].name@ != name);
                assert(s[i + 1] == first_named(s, name)->0);
                assert forall|j: int| 0 <= j < i + 1 implies #[trigger] s[j].name@ != name by {
                    if j > 0 {
                        assert(s[j] == t[j - 1]);
                    }
                }
            } else {
                assert forall|i: int| 0 <= i < s.len() implies #[trigger] s[i].name@ != name by {
                    if i > 0 {
                        assert(s[i] == t[i - 1]);
                    }
                }
            }
        } else {
            assert(s[0] == first_named(s, name)->0);
        }
    }
}

impl TreeNode {
    /// A new leaf with the given name and amount.
    pub fn new(name: &str, amount: i64) -> (r: TreeNode)
        ensures
            r.name@ == name@,
            r.amount == amount,
            r.children@ == Seq::<TreeNode>::empty(),
    {
        TreeNode { name: name.to_string(), amount, children: Vec::new() }
    }

    /// The total of this node: its own amount plus the totals of its
    /// children, in order. `None` when the total of this node or of some
    /// node below it does not fit in an `i64`.
    pub fn calculate_total(&self) -> (r: Option<i64>)
        ensures
            r == (if totals_fit(*self) {
                Some(subtree_total(*self) as i64)
            } else {
                None::<i64>
            }),
        decreases self,
    {
        let n: usize = self.children.len();
        let mut acc: i128 = self.amount as i128;
        let mut i: usize = 0;
        while i < n
            invariant
                n == self.children@.len(),
                i <= n,
                acc as int == self.amount as int + forest_total(self.children@.subrange(0, i as int)),
                -(i as int + 1) * 0x8000_0000_0000_0000 <= acc as int <= (i as int + 1)
                    * 0x7fff_ffff_ffff_ffff,
                forest_fits(self.children@.subrange(0, i as int)),
            decreases n - i,
        {
            let child = &self.children[i];
            proof {
                assert(decreases_to!(self.children => self.children[i as int]));
            }
            match child.calculate_total() {
                None => {
                    proof {
                        if totals_fit(*self) {
                            lemma_forest_fits_index(self.children@, i as int);
                        }
                    }
                    return None;
                },
                Some(t) => {
                    proof {
                        let k = i as int;
                        let a = acc as int;
                        assert(n <= usize::MAX);
                        assert(-(k + 1) * 0x8000_0000_0000_0000 - 0x8000_0000_0000_0000 == -(k + 2)
                            * 0x8000_0000_0000_0000) by (nonlinear_arith);
                        assert((k + 1) * 0x7fff_ffff_ffff_ffff + 0x7fff_ffff_ffff_ffff == (k + 2)
                            * 0x7fff_ffff_ffff_ffff) by (nonlinear_arith);
                        assert(k + 2 <= 0x1_0000_0000_0000_0000);
                        assert((k + 2) * 0x8000_0000_0000_0000 <= 0x1_0000_0000_0000_0000
                            * 0x8000_0000_0000_0000) by (nonlinear_arith)
                            requires k + 2 <= 0x1_0000_0000_0000_0000;
                        assert((k + 2) * 0x7fff_ffff_ffff_ffff <= 0x1_0000_0000_0000_0000
                            * 0x7fff_ffff_ffff_ffff) by (nonlinear_arith)
                            requires k + 2 <= 0x1_0000_0000_0000_0000;
                        assert(self.children@.subrange(0, k + 1).subrange(0, k)
                            == self.children@.subrange(0, k));
                    }
                    acc = acc + t as i128;
                    i = i + 1;
                },
            }
        }
        proof {
            assert(self.children@.subrange(0, n as int) == self.children@);
            assert(acc as int == subtree_total(*self));

        }
        if acc < i64::MIN as i128 || acc > i64::MAX as i128 {
            None
        } else {
            Some(acc as i64)
        }
    }

    /// Appends `child` as the last child of this node.
    pub fn add_children(&mut self, child: TreeNode)
        ensures
            final(self).name == old(self).name,
            final(self).amount == old(self).amount,
            final(self).children@ == old(self).children@.push(child),
            subtree_total(*final(self)) == subtree_total(*old(self)) + subtree_total(child),
    {
        let ghost before = self.children@;
        self.children.push(child);
        proof {
            let after = self.children@;
            assert(after.subrange(0, after.len() - 1) == before);
        }
    }

    /// The first node of this tree, in pre-order, whose name is `name`.
    fn find_named(&self, name: &String) -> (r: Option<&TreeNode>)
        ensures
            first_named(preorder(*self), name@) == (match r {
                Some(x) => Some(*x),
                None => None,
            }),
        decreases self,
    {
        let ghost tail = forest_preorder(self.children@);
        proof {
            assert((seq![*self] + tail)[0] == *self);
            assert((seq![*self] + tail).drop_first() == tail);
        }
        if self.name == *name {
            return Some(self);
        }
        let n: usize = self.children.len();
        let mut i: usize = 0;
        while i < n
            invariant
                n == self.children@.len(),
                i <= n,
                first_named(preorder(*self), name@) == first_named(tail, name@),
                tail == forest_preorder(self.children@),
                first_named(forest_preorder(self.children@.subrange(0, i as int)), name@) is None,
            decreases n - i,
        {
            let child = &self.children[i];
            proof {
                assert(decreases_to!(self.children => self.children[i as int]));
            }
            let found = child.find_named(name);
            proof {
                let cs = self.children@;
                let k = i as int;
                let front = cs.subrange(0, k + 1);
                let back = cs.subrange(k + 1, cs.len() as int);
                assert(cs == front + back);
                lemma_forest_preorder_append(front, back);
                assert(front.subrange(0, k) == cs.subrange(0, k));
                lemma_first_named_append(forest_preorder(cs.subrange(0, k)), preorder(cs[k]), name@);
                lemma_first_named_append(forest_preorder(front), forest_preorder(back), name@);
            }
            if found.is_some() {
                return found;
            }
            i = i + 1;
        }
        proof {
            assert(self.children@.subrange(0, n as int) == self.children@);
        }
        None
    }

    /// The first node of this tree, in pre-order (the node itself, then the
    /// subtrees of its children in order), whose name is `name`; `None` when
    /// no node of the tree has that name.
    pub fn get_item(&self, name: &str) -> (r: Option<&TreeNode>)
        ensures
            first_named(preorder(*self), name@) == (match r {
                Some(x) => Some(*x),
                None => None,
            }),
            r is None <==> (forall|i: int|
                0 <= i < preorder(*self).len() ==> #[trigger] preorder(*self)[i].name@ != name@),
    {
        let target = name.to_string();
        proof {
            lemma_first_named_spec(preorder(*self), name@);
        }
        self.find_named(&target)
    }
}

} // verus!
