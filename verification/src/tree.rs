use vstd::prelude::*;
use vstd::multiset::Multiset;
use crate::node::BTreeNode;

verus! {

/// The handle callers hold: the branching parameter and an optional root.
pub struct BTree {
    pub minimum_degree: usize,
    pub root: Option<BTreeNode>,
}

impl BTree {
    /// The multiset of keys stored in the tree.
    pub open spec fn key_multiset(self) -> Multiset<usize> {
        match self.root {
            None => Multiset::empty(),
            Some(r) => r.key_multiset(),
        }
    }

    /// Whether `k` is stored in the tree.
    pub open spec fn contains_key(self, k: usize) -> bool {
        self.key_multiset().contains(k)
    }

    /// Height of the tree: the length of the path from the root down to a
    /// leaf; an empty tree and a lone leaf root both have height zero.
    pub open spec fn height(self) -> nat {
        match self.root {
            None => 0,
            Some(r) => r.height(),
        }
    }

    /// Structural well-formedness: a valid branching parameter, and a root
    /// that, when present, is well formed and holds at least one key.
    pub open spec fn wf(self) -> bool {
        &&& 2 <= self.minimum_degree
        &&& self.minimum_degree <= usize::MAX / 2
        &&& match self.root {
            None => true,
            Some(r) => {
                &&& r.wf()
                &&& r.minimum_degree == self.minimum_degree
                &&& r.keys@.len() >= 1
            },
        }
    }

    /// The search-tree ordering holds throughout the tree.
    pub open spec fn ordered(self) -> bool {
        match self.root {
            None => true,
            Some(r) => r.ordered(),
        }
    }

    /// The in-order traversal of the whole tree.
    pub open spec fn in_order(self) -> Seq<usize> {
        match self.root {
            None => Seq::empty(),
            Some(r) => r.in_order(),
        }
    }

    /// Order invariant: in a well-formed ordered tree — which is what
    /// `new` builds and `insert` preserves for fresh keys — the in-order
    /// traversal yields the keys in strictly increasing (hence sorted)
    /// order, and carries exactly the tree's keys.
    pub proof fn lemma_in_order_sorted(tree: BTree)
        requires
            tree.wf(),
            tree.ordered(),
        ensures
            crate::node::sorted_lt(tree.in_order()),
            tree.in_order().to_multiset() == tree.key_multiset(),
    {
        broadcast use vstd::seq_lib::group_to_multiset_ensures;

        match tree.root {
            None => {
                assert(tree.in_order().to_multiset() =~= tree.key_multiset());
            },
            Some(r) => {
                BTreeNode::lemma_in_order(r);
            },
        }
    }

    /// Size invariant: every node of a well-formed tree holds at most
    /// 2t-1 keys; the root holds at least one, and every node below the
    /// root holds at least t-1.
    pub proof fn lemma_size_invariant(tree: BTree, root: BTreeNode, node: BTreeNode)
        requires
            tree.wf(),
            tree.root == Some(root),
            root.in_subtree(node),
        ensures
            node.keys@.len() <= 2 * tree.minimum_degree - 1,
            root.keys@.len() >= 1,
            BTreeNode::in_child_subtree(root, root.children@.len() as int, node)
                ==> node.keys@.len() >= tree.minimum_degree - 1,
    {
        BTreeNode::lemma_subtree_wf(root, node);
    }

    /// Child-count invariant: every internal node of a well-formed tree
    /// has exactly one more child than it has keys.
    pub proof fn lemma_child_count_invariant(tree: BTree, root: BTreeNode, node: BTreeNode)
        requires
            tree.wf(),
            tree.root == Some(root),
            root.in_subtree(node),
        ensures
            !node.is_leaf ==> node.children@.len() == node.keys@.len() + 1,
            node.is_leaf ==> node.children@.len() == 0,
    {
        BTreeNode::lemma_subtree_wf(root, node);
    }

    /// Creates an empty tree with branching parameter `minimum_degree`.
    pub fn new(minimum_degree: usize) -> (t: BTree)
        requires
            2 <= minimum_degree,
            minimum_degree <= usize::MAX / 2,
        ensures
            t.wf(),
            t.ordered(),
            t.minimum_degree == minimum_degree,
            t.root is None,
            t.key_multiset() == Multiset::<usize>::empty(),
            t.height() == 0,
    {
        BTree { minimum_degree, root: None }
    }

    /// Whether the root exists and holds its greatest allowed number of
    /// keys, which is what forces the tree to grow by one level on the
    /// next insertion.
    pub open spec fn root_full(self) -> bool {
        match self.root {
            None => false,
            Some(r) => r.keys@.len() == 2 * self.minimum_degree - 1,
        }
    }

    /// Inserts `key`. On the first insertion the root is created as a
    /// single-key leaf. When the root is full at the start, the tree first
    /// grows by one level — the root splits and a new root holds the
    /// promoted median with the two halves as its children — and that is
    /// the only way the height ever changes. The walk then descends,
    /// splitting any full child before stepping into it, and places `key`
    /// in a leaf. The tree gains exactly one copy of `key`, and when `key`
    /// is new the search-tree ordering is preserved.
    pub fn insert(&mut self, key: usize)
        requires
            old(self).wf(),
        ensures
            final(self).wf(),
            final(self).minimum_degree == old(self).minimum_degree,
            final(self).key_multiset() == old(self).key_multiset().insert(key),
            final(self).root is Some,
            final(self).height() == old(self).height() + (if old(self).root_full() {
                1nat
            } else {
                0nat
            }),
            (old(self).ordered() && !old(self).contains_key(key)) ==> final(self).ordered(),
    {
        broadcast use vstd::multiset::group_multiset_axioms;

        let t = self.minimum_degree;
        let root_opt = self.root.take();
        match root_opt {
            None => {
                let mut node = BTreeNode::new(t, true);
                node.insert_key(key);
                self.root = Some(node);
                proof {
                    broadcast use vstd::seq_lib::group_to_multiset_ensures;

                    assert(node.keys@ =~= Seq::<usize>::empty().push(key));
                    assert(BTreeNode::children_multiset_upto(node, 0) == Multiset::<
                        usize,
                    >::empty());
                    assert(node.key_multiset() =~= Multiset::<usize>::empty().insert(key));
                    assert(node.ordered());
                }
            },
            Some(mut root) => {
                let ghost r0 = root;
                if root.is_full() {
                    let (median, l, r) = root.split();
                    let mut new_children: Vec<BTreeNode> = Vec::new();
                    new_children.push(l);
                    new_children.push(r);
                    let mut new_keys: Vec<usize> = Vec::new();
                    new_keys.push(median);
                    let mut new_root = BTreeNode {
                        minimum_degree: t,
                        keys: new_keys,
                        children: new_children,
                        is_leaf: false,
                    };
                    proof {
                        Self::lemma_grown_root(r0, new_root, l, r, median);
                    }
                    new_root.insert_nonfull(key);
                    self.root = Some(new_root);
                } else {
                    root.insert_nonfull(key);
                    self.root = Some(root);
                }
            },
        }
    }

    /// A new root holding just the promoted median, with the two halves of
    /// the old full root as its children, is well formed, one level taller,
    /// holds the same keys, and is ordered whenever the old root was.
    proof fn lemma_grown_root(
        r0: BTreeNode,
        new_root: BTreeNode,
        l: BTreeNode,
        r: BTreeNode,
        median: usize,
    )
        requires
            r0.wf(),
            r0.keys@.len() == 2 * r0.minimum_degree - 1,
            l.wf(),
            r.wf(),
            l.minimum_degree == r0.minimum_degree,
            r.minimum_degree == r0.minimum_degree,
            l.keys@.len() == r0.minimum_degree - 1,
            r.keys@.len() == r0.minimum_degree - 1,
            l.height() == r0.height(),
            r.height() == r0.height(),
            r0.key_multiset() == l.key_multiset().add(r.key_multiset()).insert(median),
            r0.ordered() ==> {
                &&& l.ordered()
                &&& r.ordered()
                &&& forall|k: usize| l.key_multiset().contains(k) ==> k < median
                &&& forall|k: usize| r.key_multiset().contains(k) ==> k > median
            },
            new_root.minimum_degree == r0.minimum_degree,
            new_root.keys@ == Seq::<usize>::empty().push(median),
            new_root.children@ == Seq::<BTreeNode>::empty().push(l).push(r),
            !new_root.is_leaf,
        ensures
            new_root.wf(),
            new_root.keys@.len() == 1,
            new_root.height() == r0.height() + 1,
            new_root.key_multiset() == r0.key_multiset(),
            r0.ordered() ==> new_root.ordered(),
    {
        broadcast use vstd::multiset::group_multiset_axioms;
        broadcast use vstd::seq_lib::group_to_multiset_ensures;

        assert(new_root.children@[0] == l && new_root.children@[1] == r);
        assert(new_root.children@.len() == 2);
        assert(new_root.wf());
        assert(new_root.height() == 1 + l.height());
        assert(BTreeNode::children_multiset_upto(new_root, 2)
            == BTreeNode::children_multiset_upto(new_root, 1).add(r.key_multiset()));
        assert(BTreeNode::children_multiset_upto(new_root, 1)
            == BTreeNode::children_multiset_upto(new_root, 0).add(l.key_multiset()));
        assert(new_root.keys@.to_multiset() == Seq::<usize>::empty().to_multiset().insert(
            median,
        ));
        assert(new_root.key_multiset() =~= r0.key_multiset());
        if r0.ordered() {
            assert(new_root.keys@[0] == median);
            assert forall|j: int, k: usize|
                0 <= j < new_root.children@.len()
                    && (#[trigger] new_root.children@[j].key_multiset().contains(k)) implies {
                &&& (0 < j ==> new_root.keys@[j - 1] < k)
                &&& (j < new_root.keys@.len() ==> k < new_root.keys@[j])
            } by {
                if j == 0 {
                    assert(l.key_multiset().contains(k));
                } else {
                    assert(r.key_multiset().contains(k));
                }
            }
            assert(new_root.ordered());
        }
    }

    /// Looks `key` up by a top-down walk from the root. Returns a reference
    /// to the node holding `key`; returns `None` exactly when the tree does
    /// not hold `key`, in particular always on an empty tree.
    pub fn search(&self, key: usize) -> (res: Option<&BTreeNode>)
        requires
            self.wf(),
            self.ordered(),
        ensures
            res is Some <==> self.contains_key(key),
            match res {
                Some(n) => n.keys@.contains(key),
                None => true,
            },
    {
        match &self.root {
            None => None,
            Some(root) => root.search(key),
        }
    }
}

} // verus!
