use vstd::prelude::*;
use vstd::multiset::Multiset;

verus! {

/// A sequence of keys in non-decreasing order.
pub open spec fn sorted_le(s: Seq<usize>) -> bool {
    forall|p: int, q: int| 0 <= p < q < s.len() ==> s[p] <= s[q]
}

/// A sequence of keys in strictly increasing order.
pub open spec fn sorted_lt(s: Seq<usize>) -> bool {
    forall|p: int, q: int| 0 <= p < q < s.len() ==> s[p] < s[q]
}

/// A node of the tree: a bounded sorted run of keys and, when the node is
/// internal, one more owned child than it has keys.
pub struct BTreeNode {
    pub minimum_degree: usize,
    pub keys: Vec<usize>,
    pub children: Vec<BTreeNode>,
    pub is_leaf: bool,
}

impl BTreeNode {
    /// The multiset of keys stored in this node's whole subtree.
    pub open spec fn key_multiset(self) -> Multiset<usize>
        decreases self, self.children@.len() + 1nat,
    {
        self.keys@.to_multiset().add(
            Self::children_multiset_upto(self, self.children@.len() as int),
        )
    }

    /// The multiset of keys stored in the subtrees of the first `i` children.
    pub open spec fn children_multiset_upto(n: BTreeNode, i: int) -> Multiset<usize>
        decreases n, i,
    {
        if i <= 0 || i > n.children@.len() {
            Multiset::empty()
        } else {
            Self::children_multiset_upto(n, i - 1).add(n.children@[i - 1].key_multiset())
        }
    }

    /// Height of the subtree, measured along the leftmost path. Under `wf`
    /// every path from a node to a leaf has this same length.
    pub open spec fn height(self) -> nat
        decreases self,
    {
        if self.children@.len() == 0 {
            0
        } else {
            1 + self.children@[0].height()
        }
    }

    /// Structural well-formedness of a subtree, with no lower bound on this
    /// node's own key count (the root is allowed as few as one key; every
    /// other node owes its minimum to its parent). For the branching
    /// parameter t = `minimum_degree`:
    /// every node holds at most 2t-1 keys, in non-decreasing order;
    /// an internal node has exactly one more child than it has keys,
    /// each child well formed with at least t-1 keys, and all children
    /// of equal height.
    pub open spec fn wf(self) -> bool
        decreases self,
    {
        &&& 2 <= self.minimum_degree
        &&& self.minimum_degree <= usize::MAX / 2
        &&& self.keys@.len() <= 2 * self.minimum_degree - 1
        &&& sorted_le(self.keys@)
        &&& (self.is_leaf ==> self.children@.len() == 0)
        &&& (!self.is_leaf ==> {
            &&& self.children@.len() == self.keys@.len() + 1
            &&& forall|j: int|
                0 <= j < self.children@.len() ==> {
                    &&& (#[trigger] self.children@[j]).wf()
                    &&& self.children@[j].minimum_degree == self.minimum_degree
                    &&& self.children@[j].keys@.len() >= self.minimum_degree - 1
                    &&& self.children@[j].height() == self.children@[0].height()
                }
        })
    }

    /// The search-tree ordering of a subtree: keys within a node strictly
    /// increase, and every key under child `j` lies strictly between the
    /// node's keys `j-1` and `j` (unbounded at the two ends).
    pub open spec fn ordered(self) -> bool
        decreases self,
    {
        &&& sorted_lt(self.keys@)
        &&& forall|j: int|
            0 <= j < self.children@.len() ==> (#[trigger] self.children@[j]).ordered()
        &&& forall|j: int, k: usize|
            0 <= j < self.children@.len() && (#[trigger] self.children@[j].key_multiset().contains(
                k,
            )) ==> {
                &&& (0 < j ==> self.keys@[j - 1] < k)
                &&& (j < self.keys@.len() ==> k < self.keys@[j])
            }
    }

    /// The in-order traversal of a subtree: children and keys interleaved,
    /// leftmost child first.
    pub open spec fn in_order(self) -> Seq<usize>
        decreases self, self.children@.len() + 1nat,
    {
        if self.children@.len() == 0 {
            self.keys@
        } else {
            Self::in_order_upto(self, self.children@.len() as int)
        }
    }

    /// The traversal of the first `i` children with the `i - 1` keys that
    /// separate them.
    pub open spec fn in_order_upto(n: BTreeNode, i: int) -> Seq<usize>
        decreases n, i,
    {
        if i <= 0 || i > n.children@.len() {
            Seq::empty()
        } else if i == 1 {
            n.children@[0].in_order()
        } else {
            Self::in_order_upto(n, i - 1) + seq![n.keys@[i - 2]] + n.children@[i - 1].in_order()
        }
    }

    /// Whether `d` is a node of this subtree (the subtree's top included).
    pub open spec fn in_subtree(self, d: BTreeNode) -> bool
        decreases self, self.children@.len() + 1nat,
    {
        self == d || Self::in_child_subtree(self, self.children@.len() as int, d)
    }

    /// Whether `d` lies in the subtree of one of the first `i` children.
    pub open spec fn in_child_subtree(n: BTreeNode, i: int, d: BTreeNode) -> bool
        decreases n, i,
    {
        if i <= 0 || i > n.children@.len() {
            false
        } else {
            n.children@[i - 1].in_subtree(d) || Self::in_child_subtree(n, i - 1, d)
        }
    }

    /// Every node of a well-formed subtree is itself well formed with the
    /// same branching parameter, and every node strictly below the top
    /// holds at least t-1 keys.
    pub proof fn lemma_subtree_wf(n: BTreeNode, d: BTreeNode)
        requires
            n.wf(),
            n.in_subtree(d),
        ensures
            d.wf(),
            d.minimum_degree == n.minimum_degree,
            Self::in_child_subtree(n, n.children@.len() as int, d) ==> d.keys@.len()
                >= n.minimum_degree - 1,
        decreases n, n.children@.len() + 1nat,
    {
        if n != d || Self::in_child_subtree(n, n.children@.len() as int, d) {
            Self::lemma_subtree_wf_upto(n, n.children@.len() as int, d);
        }
    }

    /// Induction behind `lemma_subtree_wf`, over the child count.
    proof fn lemma_subtree_wf_upto(n: BTreeNode, i: int, d: BTreeNode)
        requires
            n.wf(),
            0 <= i <= n.children@.len(),
            Self::in_child_subtree(n, i, d),
        ensures
            d.wf(),
            d.minimum_degree == n.minimum_degree,
            d.keys@.len() >= n.minimum_degree - 1,
        decreases n, i,
    {
        if n.children@[i - 1].in_subtree(d) {
            let c = n.children@[i - 1];
            assert(c.wf());
            if c == d {
            } else {
                Self::lemma_subtree_wf(c, d);
            }
        } else {
            Self::lemma_subtree_wf_upto(n, i - 1, d);
        }
    }

    /// Order invariant of a subtree: under the search-tree ordering, the
    /// in-order traversal is strictly increasing, and it carries exactly
    /// the subtree's keys.
    pub proof fn lemma_in_order(n: BTreeNode)
        requires
            n.wf(),
            n.ordered(),
        ensures
            sorted_lt(n.in_order()),
            n.in_order().to_multiset() == n.key_multiset(),
        decreases n, n.children@.len() + 1nat,
    {
        broadcast use vstd::multiset::group_multiset_axioms;
        broadcast use vstd::seq_lib::group_to_multiset_ensures;

        if n.children@.len() == 0 {
            assert(Self::children_multiset_upto(n, 0) == Multiset::<usize>::empty());
            assert(n.in_order().to_multiset() =~= n.key_multiset());
        } else {
            Self::lemma_in_order_upto(n, n.children@.len() as int);
            assert(n.keys@.subrange(0, n.children@.len() - 1) =~= n.keys@);
            assert(n.in_order().to_multiset() =~= n.key_multiset());
        }
    }

    /// Induction behind `lemma_in_order`: the traversal of the first `i`
    /// children with their separators is strictly sorted, carries exactly
    /// those keys, and stays strictly below the next separator.
    #[verifier::rlimit(100)]
    #[verifier::spinoff_prover]
    proof fn lemma_in_order_upto(n: BTreeNode, i: int)
        requires
            n.wf(),
            n.ordered(),
            !n.is_leaf,
            1 <= i <= n.children@.len(),
        ensures
            sorted_lt(Self::in_order_upto(n, i)),
            Self::in_order_upto(n, i).to_multiset() == Self::children_multiset_upto(n, i).add(
                n.keys@.subrange(0, i - 1).to_multiset(),
            ),
            i - 1 < n.keys@.len() ==> forall|p: int|
                0 <= p < Self::in_order_upto(n, i).len() ==> #[trigger] Self::in_order_upto(
                    n,
                    i,
                )[p] < n.keys@[i - 1],
        decreases n, i,
    {
        broadcast use vstd::multiset::group_multiset_axioms;
        broadcast use vstd::seq_lib::group_to_multiset_ensures;

        let c = n.children@[i - 1];
        assert(c.wf() && c.ordered());
        Self::lemma_in_order(c);
        assert forall|p: int| 0 <= p < c.in_order().len() implies c.key_multiset().contains(
            #[trigger] c.in_order()[p],
        ) by {
            assert(c.in_order().contains(c.in_order()[p]));
        }
        if i == 1 {
            assert(Self::in_order_upto(n, i) == c.in_order());
            assert(n.keys@.subrange(0, 0) =~= Seq::<usize>::empty());
            assert(Self::children_multiset_upto(n, 1) == Self::children_multiset_upto(
                n,
                0,
            ).add(c.key_multiset()));
            assert(Self::in_order_upto(n, i).to_multiset() =~= Self::children_multiset_upto(
                n,
                i,
            ).add(n.keys@.subrange(0, i - 1).to_multiset()));
        } else {
            Self::lemma_in_order_upto(n, i - 1);
            let a = Self::in_order_upto(n, i - 1);
            let m = n.keys@[i - 2];
            let b = c.in_order();
            let s = a + seq![m] + b;
            assert(Self::in_order_upto(n, i) == s);
            // Keys under the child at `i - 1` lie strictly between the
            // separators around it.
            assert forall|p: int| 0 <= p < b.len() implies m < #[trigger] b[p] && (i - 1
                < n.keys@.len() ==> b[p] < n.keys@[i - 1]) by {
                assert(c.key_multiset().contains(b[p]));
            }
            assert forall|p: int, q: int| 0 <= p < q < s.len() implies s[p] < s[q] by {
                if q < a.len() {
                } else if q == a.len() {
                    assert(s[q] == m && s[p] == a[p]);
                } else {
                    assert(s[q] == b[q - a.len() - 1]);
                    if p < a.len() {
                        assert(s[p] == a[p] && a[p] < m);
                    } else if p == a.len() {
                        assert(s[p] == m);
                    } else {
                        assert(s[p] == b[p - a.len() - 1]);
                    }
                }
            }
            // The traversal's multiset grows by the separator and the
            // child's keys.
            vstd::seq_lib::lemma_multiset_commutative(a + seq![m], b);
            assert(a + seq![m] =~= a.push(m));
            vstd::seq_lib::to_multiset_build(a, m);
            assert(n.keys@.subrange(0, i - 1) =~= n.keys@.subrange(0, i - 2).push(m));
            vstd::seq_lib::to_multiset_build(n.keys@.subrange(0, i - 2), m);
            assert(Self::children_multiset_upto(n, i) == Self::children_multiset_upto(
                n,
                i - 1,
            ).add(c.key_multiset()));
            assert(s.to_multiset() =~= Self::children_multiset_upto(n, i).add(
                n.keys@.subrange(0, i - 1).to_multiset(),
            ));
            // Everything seen so far stays below the next separator.
            if i - 1 < n.keys@.len() {
                assert(n.keys@[i - 2] < n.keys@[i - 1]);
                assert forall|p: int| 0 <= p < s.len() implies #[trigger] s[p] < n.keys@[i
                    - 1] by {
                    if p < a.len() {
                        assert(s[p] == a[p] && a[p] < m);
                    } else if p == a.len() {
                        assert(s[p] == m);
                    } else {
                        assert(s[p] == b[p - a.len() - 1]);
                    }
                }
            }
        }
    }

    /// Creates an empty node that shares the tree's branching parameter.
    pub fn new(minimum_degree: usize, is_leaf: bool) -> (n: BTreeNode)
        ensures
            n.minimum_degree == minimum_degree,
            n.keys@ == Seq::<usize>::empty(),
            n.children@ == Seq::<BTreeNode>::empty(),
            n.is_leaf == is_leaf,
            n.key_multiset() == Multiset::<usize>::empty(),
    {
        let n = BTreeNode {
            minimum_degree,
            keys: Vec::new(),
            children: Vec::new(),
            is_leaf,
        };
        proof {
            assert(n.keys@ =~= Seq::<usize>::empty());
            assert(n.children@ =~= Seq::<BTreeNode>::empty());
            n.keys@.to_multiset_ensures();
            assert(n.key_multiset() =~= Multiset::<usize>::empty());
        }
        n
    }

    /// The greatest number of keys a node may hold: 2t-1.
    pub fn capacity(&self) -> (c: usize)
        requires
            2 <= self.minimum_degree,
            self.minimum_degree <= usize::MAX / 2,
        ensures
            c == 2 * self.minimum_degree - 1,
    {
        self.minimum_degree * 2 - 1
    }

    /// Whether the node holds its greatest allowed number of keys.
    pub fn is_full(&self) -> (r: bool)
        requires
            2 <= self.minimum_degree,
            self.minimum_degree <= usize::MAX / 2,
        ensures
            r == (self.keys@.len() == 2 * self.minimum_degree - 1),
    {
        self.keys.len() == self.minimum_degree * 2 - 1
    }

    /// Inserts `key` into the sorted key run at the first position whose
    /// key is at least `key`, and returns that position. The caller must
    /// leave room: the node may not already be at capacity.
    pub fn insert_key(&mut self, key: usize) -> (i: usize)
        requires
            sorted_le(old(self).keys@),
            old(self).keys@.len() < 2 * old(self).minimum_degree - 1,
        ensures
            i <= old(self).keys@.len(),
            final(self).keys@ == old(self).keys@.insert(i as int, key),
            forall|j: int| 0 <= j < i ==> old(self).keys@[j] < key,
            i < old(self).keys@.len() ==> key <= old(self).keys@[i as int],
            sorted_le(final(self).keys@),
            final(self).keys@.to_multiset() == old(self).keys@.to_multiset().insert(key),
            final(self).keys@.len() == old(self).keys@.len() + 1,
            final(self).children == old(self).children,
            final(self).minimum_degree == old(self).minimum_degree,
            final(self).is_leaf == old(self).is_leaf,
    {
        let mut i: usize = 0;
        while i < self.keys.len() && key > self.keys[i]
            invariant
                i <= self.keys@.len(),
                forall|j: int| 0 <= j < i ==> self.keys@[j] < key,
            decreases self.keys@.len() - i,
        {
            i += 1;
        }
        self.keys.insert(i, key);
        proof {
            vstd::seq_lib::to_multiset_insert(old(self).keys@, i as int, key);
            assert forall|p: int, q: int|
                0 <= p < q < self.keys@.len() implies self.keys@[p] <= self.keys@[q] by {
                assert(sorted_le(old(self).keys@));
            }
        }
        i
    }

    /// Two nodes whose first `i` children agree hold the same keys under them.
    pub proof fn lemma_cms_agree(n1: BTreeNode, n2: BTreeNode, i: int)
        requires
            0 <= i,
            i <= n1.children@.len(),
            i <= n2.children@.len(),
            forall|j: int| 0 <= j < i ==> n1.children@[j] == n2.children@[j],
        ensures
            Self::children_multiset_upto(n1, i) == Self::children_multiset_upto(n2, i),
        decreases i,
    {
        if i > 0 {
            Self::lemma_cms_agree(n1, n2, i - 1);
        }
    }

    /// Removing the child at `p` removes exactly that child's keys.
    pub proof fn lemma_cms_remove(n1: BTreeNode, n2: BTreeNode, p: int, i: int)
        requires
            0 <= p < n1.children@.len(),
            n2.children@ == n1.children@.remove(p),
            p < i <= n1.children@.len(),
        ensures
            Self::children_multiset_upto(n1, i) == Self::children_multiset_upto(
                n2,
                i - 1,
            ).add(n1.children@[p].key_multiset()),
        decreases i,
    {
        broadcast use vstd::multiset::group_multiset_axioms;

        if i == p + 1 {
            Self::lemma_cms_agree(n1, n2, p);
        } else {
            Self::lemma_cms_remove(n1, n2, p, i - 1);
            assert(n2.children@[i - 2] == n1.children@[i - 1]);
            assert(Self::children_multiset_upto(n1, i) =~= Self::children_multiset_upto(
                n2,
                i - 1,
            ).add(n1.children@[p].key_multiset()));
        }
    }

    /// Inserting a child at `p` adds exactly that child's keys.
    pub proof fn lemma_cms_insert(n1: BTreeNode, n2: BTreeNode, p: int, c: BTreeNode, i: int)
        requires
            0 <= p <= n1.children@.len(),
            n2.children@ == n1.children@.insert(p, c),
            p <= i <= n1.children@.len(),
        ensures
            Self::children_multiset_upto(n2, i + 1) == Self::children_multiset_upto(
                n1,
                i,
            ).add(c.key_multiset()),
        decreases i,
    {
        broadcast use vstd::multiset::group_multiset_axioms;

        if i == p {
            Self::lemma_cms_agree(n1, n2, p);
            assert(n2.children@[p] == c);
        } else {
            Self::lemma_cms_insert(n1, n2, p, c, i - 1);
            assert(n2.children@[i] == n1.children@[i - 1]);
            assert(Self::children_multiset_upto(n2, i + 1) =~= Self::children_multiset_upto(
                n1,
                i,
            ).add(c.key_multiset()));
        }
    }

    /// When `n2`'s first `i` children are `n1`'s children `a..a+i`, the keys
    /// under `n1`'s first `a+i` children are those under its first `a`
    /// together with those under `n2`'s first `i`.
    pub proof fn lemma_cms_suffix(n1: BTreeNode, n2: BTreeNode, a: int, i: int)
        requires
            0 <= a,
            0 <= i,
            a + i <= n1.children@.len(),
            i <= n2.children@.len(),
            forall|j: int| 0 <= j < i ==> n2.children@[j] == n1.children@[a + j],
        ensures
            Self::children_multiset_upto(n1, a + i) == Self::children_multiset_upto(
                n1,
                a,
            ).add(Self::children_multiset_upto(n2, i)),
        decreases i,
    {
        broadcast use vstd::multiset::group_multiset_axioms;

        if i == 0 {
            assert(Self::children_multiset_upto(n1, a) =~= Self::children_multiset_upto(
                n1,
                a,
            ).add(Self::children_multiset_upto(n2, 0)));
        } else {
            Self::lemma_cms_suffix(n1, n2, a, i - 1);
            assert(n2.children@[i - 1] == n1.children@[a + i - 1]);
            assert(Self::children_multiset_upto(n1, a + i) =~= Self::children_multiset_upto(
                n1,
                a,
            ).add(Self::children_multiset_upto(n2, i)));
        }
    }

    /// A key lies under one of the first `i` children exactly when one of
    /// their subtrees holds it.
    pub proof fn lemma_cms_contains(n: BTreeNode, i: int, x: usize)
        requires
            0 <= i <= n.children@.len(),
        ensures
            Self::children_multiset_upto(n, i).contains(x) <==> exists|j: int|
                0 <= j < i && (#[trigger] n.children@[j].key_multiset().contains(x)),
        decreases i,
    {
        broadcast use vstd::multiset::group_multiset_axioms;

        if i > 0 {
            Self::lemma_cms_contains(n, i - 1, x);
            if Self::children_multiset_upto(n, i).contains(x) {
                if n.children@[i - 1].key_multiset().contains(x) {
                    assert(0 <= i - 1 < i && n.children@[i - 1].key_multiset().contains(x));
                }
            }
            if exists|j: int| 0 <= j < i && (#[trigger] n.children@[j].key_multiset().contains(x)) {
                let j = choose|j: int|
                    0 <= j < i && (#[trigger] n.children@[j].key_multiset().contains(x));
                if j < i - 1 {
                    assert(Self::children_multiset_upto(n, i - 1).contains(x));
                }
            }
        }
    }

    /// A key lies in a subtree exactly when the node itself or one of its
    /// children's subtrees holds it.
    pub proof fn lemma_key_multiset_membership(n: BTreeNode, x: usize)
        ensures
            n.key_multiset().contains(x) <==> (n.keys@.contains(x) || exists|j: int|
                0 <= j < n.children@.len() && (#[trigger] n.children@[j].key_multiset().contains(
                    x,
                ))),
    {
        broadcast use vstd::multiset::group_multiset_axioms;
        broadcast use vstd::seq_lib::group_to_multiset_ensures;

        Self::lemma_cms_contains(n, n.children@.len() as int, x);
    }

    /// Removes and returns the key at `index`, shifting later keys left.
    pub fn remove_key(&mut self, index: usize) -> (k: usize)
        requires
            index < old(self).keys@.len(),
        ensures
            k == old(self).keys@[index as int],
            final(self).keys@ == old(self).keys@.remove(index as int),
            final(self).keys@.to_multiset() == old(self).keys@.to_multiset().remove(k),
            final(self).children == old(self).children,
            final(self).minimum_degree == old(self).minimum_degree,
            final(self).is_leaf == old(self).is_leaf,
    {
        let k = self.keys.remove(index);
        proof {
            vstd::seq_lib::to_multiset_remove(old(self).keys@, index as int);
        }
        k
    }

    /// Replacing the child at `next` by one holding the same keys plus
    /// `key` preserves well-formedness and height, adds exactly `key` to
    /// the subtree, and — when `key` is new and falls strictly between the
    /// surrounding separators — preserves the search-tree ordering.
    #[verifier::spinoff_prover]
    pub proof fn lemma_child_update(
        m0: BTreeNode,
        m2: BTreeNode,
        next: int,
        c: BTreeNode,
        c2: BTreeNode,
        key: usize,
    )
        requires
            m0.wf(),
            !m0.is_leaf,
            0 <= next < m0.children@.len(),
            c == m0.children@[next],
            m2.children@ == m0.children@.remove(next).insert(next, c2),
            m2.keys@ == m0.keys@,
            m2.is_leaf == m0.is_leaf,
            m2.minimum_degree == m0.minimum_degree,
            c2.wf(),
            c2.minimum_degree == m0.minimum_degree,
            c2.keys@.len() >= c.keys@.len(),
            c2.height() == c.height(),
            c2.key_multiset() == c.key_multiset().insert(key),
        ensures
            m2.wf(),
            m2.key_multiset() == m0.key_multiset().insert(key),
            m2.height() == m0.height(),
            (m0.ordered() && c2.ordered() && (0 < next ==> m0.keys@[next - 1] < key) && (next
                < m0.keys@.len() ==> key < m0.keys@[next])) ==> m2.ordered(),
    {
        broadcast use vstd::multiset::group_multiset_axioms;

        let len = m0.children@.len() as int;
        assert(m2.children@ =~= m0.children@.update(next, c2));
        assert(forall|j: int| 0 <= j < len && j != next ==> m2.children@[j] == m0.children@[j]);
        assert(m2.children@[next] == c2);
        assert(m2.wf());
        assert(m2.height() == m0.height());
        // The subtree multiset gains exactly `key`.
        assert(m2.key_multiset() == m0.key_multiset().insert(key)) by {
            Self::lemma_cms_replace(m0, m2, next, c2);
            let cms0 = Self::children_multiset_upto(m0, len);
            let cms2 = Self::children_multiset_upto(m2, m2.children@.len() as int);
            assert(cms2.add(c.key_multiset()) == cms0.add(c2.key_multiset()));
            assert forall|k: usize| #[trigger]
                m2.key_multiset().count(k) == m0.key_multiset().insert(key).count(k) by {
                assert(cms2.add(c.key_multiset()).count(k) == cms0.add(
                    c2.key_multiset(),
                ).count(k));
                assert(c2.key_multiset().count(k) == c.key_multiset().insert(key).count(k));
            }
            assert(m2.key_multiset() =~= m0.key_multiset().insert(key));
        }
        // Ordering, when everything around it is in place.
        if m0.ordered() && c2.ordered() && (0 < next ==> m0.keys@[next - 1] < key) && (next
            < m0.keys@.len() ==> key < m0.keys@[next]) {
            assert forall|j: int, k: usize|
                0 <= j < m2.children@.len() && (#[trigger] m2.children@[j].key_multiset().contains(
                    k,
                )) implies {
                &&& (0 < j ==> m2.keys@[j - 1] < k)
                &&& (j < m2.keys@.len() ==> k < m2.keys@[j])
            } by {
                if j == next {
                    assert(c2.key_multiset().count(k) > 0);
                    if k != key {
                        assert(c.key_multiset().count(k) > 0);
                        assert(m0.children@[next].key_multiset().contains(k));
                    }
                } else {
                    assert(m2.children@[j] == m0.children@[j]);
                    assert(m0.children@[j].key_multiset().contains(k));
                }
            }
            assert(m2.ordered());
        }
    }

    /// Updating the child at `p` exchanges its keys for the new child's.
    pub proof fn lemma_cms_replace(n1: BTreeNode, n2: BTreeNode, p: int, c: BTreeNode)
        requires
            0 <= p < n1.children@.len(),
            n2.children@ == n1.children@.update(p, c),
        ensures
            Self::children_multiset_upto(n2, n2.children@.len() as int).add(
                n1.children@[p].key_multiset(),
            ) == Self::children_multiset_upto(n1, n1.children@.len() as int).add(
                c.key_multiset(),
            ),
    {
        broadcast use vstd::multiset::group_multiset_axioms;

        Self::lemma_cms_replace_rec(n1, n2, p, c, n1.children@.len() as int);
    }

    /// Induction behind `lemma_cms_replace`.
    proof fn lemma_cms_replace_rec(n1: BTreeNode, n2: BTreeNode, p: int, c: BTreeNode, i: int)
        requires
            0 <= p < n1.children@.len(),
            n2.children@ == n1.children@.update(p, c),
            p < i <= n1.children@.len(),
        ensures
            Self::children_multiset_upto(n2, i).add(n1.children@[p].key_multiset())
                == Self::children_multiset_upto(n1, i).add(c.key_multiset()),
        decreases i,
    {
        broadcast use vstd::multiset::group_multiset_axioms;

        if i == p + 1 {
            Self::lemma_cms_agree(n1, n2, p);
            assert(n2.children@[p] == c);
            assert(Self::children_multiset_upto(n2, i).add(n1.children@[p].key_multiset())
                =~= Self::children_multiset_upto(n1, i).add(c.key_multiset()));
        } else {
            Self::lemma_cms_replace_rec(n1, n2, p, c, i - 1);
            assert(n2.children@[i - 1] == n1.children@[i - 1]);
            assert(Self::children_multiset_upto(n2, i) == Self::children_multiset_upto(
                n2,
                i - 1,
            ).add(n2.children@[i - 1].key_multiset()));
            assert(Self::children_multiset_upto(n1, i) == Self::children_multiset_upto(
                n1,
                i - 1,
            ).add(n1.children@[i - 1].key_multiset()));
            assert forall|k: usize|
                Self::children_multiset_upto(n2, i).add(n1.children@[p].key_multiset()).count(k)
                    == Self::children_multiset_upto(n1, i).add(c.key_multiset()).count(
                    k,
                ) by {
                assert(Self::children_multiset_upto(n2, i - 1).add(
                    n1.children@[p].key_multiset(),
                ).count(k) == Self::children_multiset_upto(n1, i - 1).add(
                    c.key_multiset(),
                ).count(k));
            }
            assert(Self::children_multiset_upto(n2, i).add(n1.children@[p].key_multiset())
                =~= Self::children_multiset_upto(n1, i).add(c.key_multiset()));
        }
    }

    /// Walks top-down comparing keys: at each node, finds the first key at
    /// least `key`; on an exact match returns that node, in a leaf reports
    /// the key absent, and otherwise steps into the child at that position.
    /// Returns the node holding `key`, or `None` exactly when no node does.
    pub fn search(&self, key: usize) -> (res: Option<&BTreeNode>)
        requires
            self.wf(),
            self.ordered(),
            self.keys@.len() >= 1,
        ensures
            res is Some <==> self.key_multiset().contains(key),
            match res {
                Some(n) => n.keys@.contains(key) && n.wf() && n.ordered(),
                None => true,
            },
    {
        let mut cur: &BTreeNode = self;
        loop
            invariant
                cur.wf(),
                cur.ordered(),
                self.wf(),
                self.key_multiset().contains(key) == cur.key_multiset().contains(key),
            decreases cur.height(),
        {
            let mut i: usize = 0;
            while i < cur.keys.len() && key > cur.keys[i]
                invariant
                    i <= cur.keys@.len(),
                    forall|j: int| 0 <= j < i ==> cur.keys@[j] < key,
                decreases cur.keys@.len() - i,
            {
                i += 1;
            }
            if i < cur.keys.len() && cur.keys[i] == key {
                proof {
                    Self::lemma_key_multiset_membership(*cur, key);
                    assert(cur.keys@[i as int] == key);
                }
                return Some(cur);
            }
            proof {
                // The scan stopped at the first key >= `key`, and it is not
                // an exact match, so `key` is not among this node's keys.
                assert(!cur.keys@.contains(key)) by {
                    if cur.keys@.contains(key) {
                        let p = cur.keys@.index_of(key);
                        if p >= i {
                            assert(i < cur.keys@.len());
                            assert(cur.keys@[i as int] != key);
                            assert(key <= cur.keys@[i as int]);
                        }
                    }
                }
            }
            if cur.is_leaf {
                proof {
                    Self::lemma_key_multiset_membership(*cur, key);
                }
                return None;
            }
            proof {
                Self::lemma_key_multiset_membership(*cur, key);
                // Every other child's range excludes `key`, so the subtree
                // holds `key` exactly when the chosen child does.
                assert forall|j: int|
                    0 <= j < cur.children@.len() && j != i && (#[trigger] cur.children@[j].key_multiset().contains(
                        key,
                    )) implies false by {
                    if j < i {
                        assert(key < cur.keys@[j]);
                        assert(cur.keys@[j] < key);
                    } else {
                        assert(cur.keys@[j - 1] < key);
                        assert(i < j);
                        if i < cur.keys@.len() {
                            assert(key < cur.keys@[i as int] || key == cur.keys@[i as int]);
                            assert(cur.keys@[i as int] <= cur.keys@[j - 1]);
                        }
                    }
                }
                assert(cur.children@[i as int].height() == cur.children@[0].height());
            }
            cur = &cur.children[i];
        }
    }

    /// After a full child is split in place — the child removed, its median
    /// inserted into the key run at `ix`, and the two halves re-attached as
    /// consecutive children there — the node is well formed again, has the
    /// same height and the same keys under it, and both halves have room.
    /// When the subtree was ordered and `key` is new, the ordering also
    /// survives, the median lands exactly at the split child's position,
    /// and `key` falls strictly between the separators around the half
    /// chosen by comparing against the median.
    #[verifier::rlimit(100)]
    #[verifier::spinoff_prover]
    proof fn lemma_split_child_shape(
        n0: BTreeNode,
        s2: BTreeNode,
        s3: BTreeNode,
        s4: BTreeNode,
        child: BTreeNode,
        l: BTreeNode,
        r: BTreeNode,
        median: usize,
        ii: int,
        ix: int,
    )
        requires
            n0.wf(),
            !n0.is_leaf,
            n0.keys@.len() < 2 * n0.minimum_degree - 1,
            0 <= ii < n0.children@.len(),
            child == n0.children@[ii],
            child.keys@.len() == 2 * n0.minimum_degree - 1,
            l.wf(),
            r.wf(),
            l.minimum_degree == n0.minimum_degree,
            r.minimum_degree == n0.minimum_degree,
            l.keys@.len() == n0.minimum_degree - 1,
            r.keys@.len() == n0.minimum_degree - 1,
            l.height() == child.height(),
            r.height() == child.height(),
            child.key_multiset() == l.key_multiset().add(r.key_multiset()).insert(median),
            0 <= ix <= n0.keys@.len(),
            s4.keys@ == n0.keys@.insert(ix, median),
            s4.keys@.to_multiset() == n0.keys@.to_multiset().insert(median),
            sorted_le(s4.keys@),
            s2.children@ == n0.children@.remove(ii),
            s3.children@ == s2.children@.insert(ix, l),
            s4.children@ == s3.children@.insert(ix + 1, r),
            s4.minimum_degree == n0.minimum_degree,
            s4.is_leaf == n0.is_leaf,
        ensures
            s4.wf(),
            s4.height() == n0.height(),
            s4.key_multiset() == n0.key_multiset(),
            s4.children@.len() == n0.children@.len() + 1,
            s4.children@[ix].keys@.len() == n0.minimum_degree - 1,
            s4.children@[ix + 1].keys@.len() == n0.minimum_degree - 1,
    {
        broadcast use vstd::multiset::group_multiset_axioms;
        broadcast use vstd::seq_lib::group_to_multiset_ensures;

        let t = n0.minimum_degree as int;
        let len0 = n0.children@.len() as int;
        n0.children@.remove_ensures(ii);
        s2.children@.insert_ensures(ix, l);
        s3.children@.insert_ensures(ix + 1, r);
        // Index map of the reshaped children sequence.
        assert(s4.children@.len() == len0 + 1);
        assert forall|j: int| 0 <= j < ix implies s4.children@[j] == s2.children@[j] by {}
        assert(s4.children@[ix] == l && s4.children@[ix + 1] == r);
        assert forall|j: int| ix + 1 < j < len0 + 1 implies s4.children@[j] == s2.children@[j
            - 2] by {}
        // Every child of the reshaped node keeps the common height and its
        // other obligations.
        let h = n0.children@[0].height();
        assert(child.height() == h);
        assert(l.height() == h && r.height() == h);
        assert forall|j: int|
            0 <= j < s4.children@.len() implies (#[trigger] s4.children@[j]).wf()
            && s4.children@[j].height() == h && s4.children@[j].minimum_degree
            == n0.minimum_degree && s4.children@[j].keys@.len() >= n0.minimum_degree - 1 by {
            if j < ix {
                if j < ii {
                    assert(s2.children@[j] == n0.children@[j]);
                } else {
                    assert(s2.children@[j] == n0.children@[j + 1]);
                }
            } else if j > ix + 1 {
                if j - 2 < ii {
                    assert(s2.children@[j - 2] == n0.children@[j - 2]);
                } else {
                    assert(s2.children@[j - 2] == n0.children@[j - 1]);
                }
            }
        }
        assert(s4.children@[0].height() == h);
        assert(s4.wf());
        assert(s4.height() == n0.height());
        // The reshaping moves keys around but adds none.
        Self::lemma_cms_remove(n0, s2, ii, len0);
        Self::lemma_cms_insert(s2, s3, ix, l, len0 - 1);
        Self::lemma_cms_insert(s3, s4, ix + 1, r, len0);
        assert forall|k: usize| #[trigger]
            s4.key_multiset().count(k) == n0.key_multiset().count(k) by {
            assert(Self::children_multiset_upto(s4, len0 + 1).count(k)
                == Self::children_multiset_upto(s2, len0 - 1).count(k) + l.key_multiset().count(
                k,
            ) + r.key_multiset().count(k));
            assert(Self::children_multiset_upto(n0, len0).count(k)
                == Self::children_multiset_upto(s2, len0 - 1).count(k)
                + child.key_multiset().count(k));
        }
        assert(s4.key_multiset() =~= n0.key_multiset());
    }

    /// Core ordering fact of the in-place child split: when the subtree
    /// was ordered, the promoted median lands exactly at the split child's
    /// position and the reshaped node is ordered again.
    #[verifier::rlimit(100)]
    #[verifier::spinoff_prover]
    proof fn lemma_split_child_ordered_core(
        n0: BTreeNode,
        s2: BTreeNode,
        s3: BTreeNode,
        s4: BTreeNode,
        child: BTreeNode,
        l: BTreeNode,
        r: BTreeNode,
        median: usize,
        ii: int,
        ix: int,
    )
        requires
            n0.wf(),
            n0.ordered(),
            !n0.is_leaf,
            n0.keys@.len() < 2 * n0.minimum_degree - 1,
            0 <= ii < n0.children@.len(),
            child == n0.children@[ii],
            child.keys@.len() == 2 * n0.minimum_degree - 1,
            median == child.keys@[n0.minimum_degree - 1],
            child.key_multiset() == l.key_multiset().add(r.key_multiset()).insert(median),
            child.ordered() ==> {
                &&& l.ordered()
                &&& r.ordered()
                &&& forall|k: usize| l.key_multiset().contains(k) ==> k < median
                &&& forall|k: usize| r.key_multiset().contains(k) ==> k > median
            },
            0 <= ix <= n0.keys@.len(),
            s4.keys@ == n0.keys@.insert(ix, median),
            forall|j: int| 0 <= j < ix ==> n0.keys@[j] < median,
            ix < n0.keys@.len() ==> median <= n0.keys@[ix],
            s2.children@ == n0.children@.remove(ii),
            s3.children@ == s2.children@.insert(ix, l),
            s4.children@ == s3.children@.insert(ix + 1, r),
            s4.minimum_degree == n0.minimum_degree,
            s4.is_leaf == n0.is_leaf,
        ensures
            ix == ii,
            s4.ordered(),
            n0.key_multiset().contains(median),
            0 < ii ==> n0.keys@[ii - 1] < median,
            ii < n0.keys@.len() ==> median < n0.keys@[ii],
    {
        broadcast use vstd::multiset::group_multiset_axioms;
        broadcast use vstd::seq_lib::group_to_multiset_ensures;

        let t = n0.minimum_degree as int;
        let len0 = n0.children@.len() as int;
        assert(s4.children@.len() == len0 + 1);
        assert forall|j: int| 0 <= j < ix implies s4.children@[j] == s2.children@[j] by {}
        assert(s4.children@[ix] == l && s4.children@[ix + 1] == r);
        assert forall|j: int| ix + 1 < j < len0 + 1 implies s4.children@[j] == s2.children@[j
            - 2] by {}
        assert(child.ordered());
        assert(child.keys@[t - 1] == median);
        assert(child.keys@.contains(median));
        assert(child.key_multiset().count(median) >= child.keys@.to_multiset().count(median));
        assert(child.key_multiset().contains(median));
        Self::lemma_key_multiset_membership(n0, median);
        assert(n0.children@[ii].key_multiset().contains(median));
        assert(n0.key_multiset().contains(median));
        // The separators around the full child bound its median, so the
        // median lands exactly at the child's position.
        assert(0 < ii ==> n0.keys@[ii - 1] < median);
        assert(ii < n0.keys@.len() ==> median < n0.keys@[ii]);
        assert(ix == ii) by {
            if ix < ii {
                assert(median <= n0.keys@[ix]);
                assert(n0.keys@[ix] <= n0.keys@[ii - 1]);
            }
            if ix > ii {
                assert(n0.keys@[ii] < median);
            }
        }
        n0.keys@.insert_ensures(ii, median);
        // The grown key run is still strictly sorted.
        assert forall|p: int, q: int|
            0 <= p < q < s4.keys@.len() implies s4.keys@[p] < s4.keys@[q] by {
            if q < ii {
            } else if q == ii {
                assert(s4.keys@[p] == n0.keys@[p]);
            } else if p < ii {
                assert(s4.keys@[q] == n0.keys@[q - 1]);
                assert(n0.keys@[ii] <= n0.keys@[q - 1]);
            } else if p == ii {
                assert(s4.keys@[q] == n0.keys@[q - 1]);
                assert(median < n0.keys@[ii]);
                assert(n0.keys@[ii] <= n0.keys@[q - 1]);
            } else {
                assert(s4.keys@[p] == n0.keys@[p - 1] && s4.keys@[q] == n0.keys@[q - 1]);
            }
        }
        // Each child's subtree still sits between its separators.
        assert forall|j: int, k: usize|
            0 <= j < s4.children@.len() && (#[trigger] s4.children@[j].key_multiset().contains(
                k,
            )) implies {
            &&& (0 < j ==> s4.keys@[j - 1] < k)
            &&& (j < s4.keys@.len() ==> k < s4.keys@[j])
        } by {
            if j < ii {
                assert(s4.children@[j] == n0.children@[j]);
                assert(n0.children@[j].key_multiset().contains(k));
            } else if j == ii {
                assert(s4.children@[j] == l);
                assert(k < median);
                if 0 < ii {
                    assert(child.key_multiset().count(k) >= l.key_multiset().count(k));
                    assert(n0.children@[ii].key_multiset().contains(k));
                    assert(n0.keys@[ii - 1] < k);
                }
            } else if j == ii + 1 {
                assert(s4.children@[j] == r);
                assert(k > median);
                if ii + 1 < s4.keys@.len() {
                    assert(child.key_multiset().count(k) >= r.key_multiset().count(k));
                    assert(n0.children@[ii].key_multiset().contains(k));
                    assert(k < n0.keys@[ii]);
                    assert(s4.keys@[ii + 1] == n0.keys@[ii]);
                }
            } else {
                assert(s4.children@[j] == s2.children@[j - 2]);
                assert(s2.children@[j - 2] == n0.children@[j - 1]);
                assert(n0.children@[j - 1].key_multiset().contains(k));
                assert(n0.keys@[j - 2] < k);
                assert(s4.keys@[j - 1] == n0.keys@[j - 2]);
                if j < s4.keys@.len() {
                    assert(k < n0.keys@[j - 1]);
                    assert(s4.keys@[j] == n0.keys@[j - 1]);
                }
            }
        }
        assert(s4.ordered());
    }

    /// Ordering part of the in-place child split: when the subtree was
    /// ordered and `key` is new, the reshaped node is ordered and `key`
    /// falls strictly between the separators around the half chosen by
    /// comparing against the median.
    proof fn lemma_split_child_order(
        n0: BTreeNode,
        s2: BTreeNode,
        s3: BTreeNode,
        s4: BTreeNode,
        child: BTreeNode,
        l: BTreeNode,
        r: BTreeNode,
        median: usize,
        ii: int,
        ix: int,
        key: usize,
        nxt: int,
    )
        requires
            n0.wf(),
            !n0.is_leaf,
            n0.keys@.len() < 2 * n0.minimum_degree - 1,
            0 <= ii < n0.children@.len(),
            child == n0.children@[ii],
            child.keys@.len() == 2 * n0.minimum_degree - 1,
            median == child.keys@[n0.minimum_degree - 1],
            child.key_multiset() == l.key_multiset().add(r.key_multiset()).insert(median),
            child.ordered() ==> {
                &&& l.ordered()
                &&& r.ordered()
                &&& forall|k: usize| l.key_multiset().contains(k) ==> k < median
                &&& forall|k: usize| r.key_multiset().contains(k) ==> k > median
            },
            0 <= ix <= n0.keys@.len(),
            s4.keys@ == n0.keys@.insert(ix, median),
            forall|j: int| 0 <= j < ix ==> n0.keys@[j] < median,
            ix < n0.keys@.len() ==> median <= n0.keys@[ix],
            s2.children@ == n0.children@.remove(ii),
            s3.children@ == s2.children@.insert(ix, l),
            s4.children@ == s3.children@.insert(ix + 1, r),
            s4.minimum_degree == n0.minimum_degree,
            s4.is_leaf == n0.is_leaf,
            forall|j: int| 0 <= j < ii ==> n0.keys@[j] < key,
            ii < n0.keys@.len() ==> key <= n0.keys@[ii],
            nxt == if key <= median {
                ix
            } else {
                ix + 1
            },
        ensures
            (n0.ordered() && !n0.key_multiset().contains(key)) ==> {
                &&& s4.ordered()
                &&& (0 < nxt ==> s4.keys@[nxt - 1] < key)
                &&& (nxt < s4.keys@.len() ==> key < s4.keys@[nxt])
            },
    {
        broadcast use vstd::multiset::group_multiset_axioms;
        broadcast use vstd::seq_lib::group_to_multiset_ensures;

        if n0.ordered() && !n0.key_multiset().contains(key) {
            Self::lemma_split_child_ordered_core(n0, s2, s3, s4, child, l, r, median, ii, ix);
            n0.keys@.insert_ensures(ii, median);
            assert(key != median);
            // Bounds for the key around the chosen half.
            if key <= median {
                assert(s4.keys@[ii] == median);
                assert(key < median);
                if 0 < ii {
                    assert(s4.keys@[ii - 1] == n0.keys@[ii - 1]);
                }
            } else {
                assert(s4.keys@[ii] == median);
                if ii + 1 < s4.keys@.len() {
                    assert(key <= n0.keys@[ii]);
                    assert(n0.keys@.contains(n0.keys@[ii]));
                    assert(n0.key_multiset().count(n0.keys@[ii]) >= n0.keys@.to_multiset().count(
                        n0.keys@[ii],
                    ));
                    assert(key != n0.keys@[ii]);
                    assert(s4.keys@[ii + 1] == n0.keys@[ii]);
                }
            }
        }
    }

    /// Inserts `key` into a subtree whose top node has room for one more
    /// key. In a leaf the key goes straight into the sorted run. In an
    /// internal node the walk first finds the child whose range holds
    /// `key`, splits that child if it is full (promoting its median here,
    /// which is why room is required), re-derives the target among the
    /// two halves, and recurses. The subtree gains exactly `key`, keeps
    /// its height, and — when `key` is new and the subtree was ordered —
    /// stays ordered.
    #[verifier::rlimit(100)]
    #[verifier::spinoff_prover]
    pub fn insert_nonfull(&mut self, key: usize)
        requires
            old(self).wf(),
            old(self).keys@.len() < 2 * old(self).minimum_degree - 1,
        ensures
            final(self).wf(),
            final(self).key_multiset() == old(self).key_multiset().insert(key),
            final(self).keys@.len() >= old(self).keys@.len(),
            final(self).is_leaf == old(self).is_leaf,
            final(self).minimum_degree == old(self).minimum_degree,
            final(self).height() == old(self).height(),
            (old(self).ordered() && !old(self).key_multiset().contains(key))
                ==> final(self).ordered(),
        decreases old(self).height(),
    {
        broadcast use vstd::multiset::group_multiset_axioms;

        let ghost n0 = *self;
        if self.is_leaf {
            let pos = self.insert_key(key);
            proof {
                broadcast use vstd::seq_lib::group_to_multiset_ensures;

                assert(Self::children_multiset_upto(*self, 0) == Multiset::<usize>::empty());
                assert(Self::children_multiset_upto(n0, 0) == Multiset::<usize>::empty());
                assert(self.key_multiset() =~= n0.key_multiset().insert(key));
                if n0.ordered() && !n0.key_multiset().contains(key) {
                    assert(!n0.keys@.contains(key));
                    let i = pos as int;
                    assert forall|p: int, q: int|
                        0 <= p < q < self.keys@.len() implies self.keys@[p] < self.keys@[q] by {
                        n0.keys@.insert_ensures(i, key);
                        if q < i {
                            assert(self.keys@[p] == n0.keys@[p] && self.keys@[q] == n0.keys@[q]);
                        } else if q == i {
                            assert(self.keys@[p] == n0.keys@[p] && self.keys@[q] == key);
                        } else if p < i {
                            assert(self.keys@[q] == n0.keys@[q - 1]);
                            assert(n0.keys@[q - 1] != key);
                            assert(key <= n0.keys@[i] || i == n0.keys@.len());
                            assert(i <= q - 1);
                        } else if p == i {
                            assert(self.keys@[q] == n0.keys@[q - 1]);
                            assert(n0.keys@[q - 1] != key);
                            assert(key <= n0.keys@[i]);
                        } else {
                            assert(self.keys@[p] == n0.keys@[p - 1] && self.keys@[q]
                                == n0.keys@[q - 1]);
                        }
                    }
                    assert(self.ordered());
                }
            }
        } else {
            let mut i: usize = 0;
            while i < self.keys.len() && key > self.keys[i]
                invariant
                    i <= self.keys@.len(),
                    forall|j: int| 0 <= j < i ==> self.keys@[j] < key,
                    *self == n0,
                decreases self.keys@.len() - i,
            {
                i += 1;
            }
            proof {
                assert(n0.children@[i as int].wf());
            }
            let next: usize;
            if self.children[i].is_full() {
                let child = self.children.remove(i);
                let (median, l, r) = child.split();
                let idx = self.insert_key(median);
                let ghost s2 = *self;
                self.children.insert(idx, l);
                let ghost s3 = *self;
                self.children.insert(idx + 1, r);
                let ghost s4 = *self;
                next = if key <= median { idx } else { idx + 1 };
                proof {
                    Self::lemma_split_child_shape(
                        n0,
                        s2,
                        s3,
                        s4,
                        child,
                        l,
                        r,
                        median,
                        i as int,
                        idx as int,
                    );
                    Self::lemma_split_child_order(
                        n0,
                        s2,
                        s3,
                        s4,
                        child,
                        l,
                        r,
                        median,
                        i as int,
                        idx as int,
                        key,
                        next as int,
                    );
                }
            } else {
                next = i;
                proof {
                    broadcast use vstd::seq_lib::group_to_multiset_ensures;

                    if n0.ordered() && !n0.key_multiset().contains(key) {
                        if (next as int) < n0.keys@.len() {
                            assert(key <= n0.keys@[next as int]);
                            assert(n0.keys@.contains(n0.keys@[next as int]));
                            assert(n0.key_multiset().count(n0.keys@[next as int])
                                >= n0.keys@.to_multiset().count(n0.keys@[next as int]));
                            assert(key != n0.keys@[next as int]);
                        }
                    }
                }
            }
            let ghost s = *self;
            proof {
                // Facts common to both paths, for the descent that follows.
                assert(s.wf());
                assert(!s.is_leaf);
                assert((next as int) < s.children@.len());
                assert(s.children@[next as int].wf());
                assert(s.children@[next as int].keys@.len() < 2 * s.minimum_degree - 1);
                assert(s.children@[next as int].height() == s.children@[0].height());
                assert(s.height() == n0.height());
                assert(s.children@[next as int].height() < n0.height());
                assert(s.key_multiset() == n0.key_multiset());
                if n0.ordered() && !n0.key_multiset().contains(key) {
                    assert(s.ordered());
                    assert(!s.children@[next as int].key_multiset().contains(key)) by {
                        if s.children@[next as int].key_multiset().contains(key) {
                            Self::lemma_key_multiset_membership(s, key);
                        }
                    }
                    assert(s.children@[next as int].ordered());
                    assert(0 < next ==> s.keys@[next as int - 1] < key);
                    assert((next as int) < s.keys@.len() ==> key < s.keys@[next as int]);
                }
            }
            let mut c = self.children.remove(next);
            proof {
                assert(c == s.children@[next as int]);
            }
            c.insert_nonfull(key);
            let ghost c2 = c;
            self.children.insert(next, c);
            proof {
                Self::lemma_child_update(s, *self, next as int, s.children@[next as int], c2, key);
                assert(self.key_multiset() =~= n0.key_multiset().insert(key));
            }
        }
    }

    /// Consumes a full node and partitions it: the median key is promoted,
    /// keys and children to its left form `left`, those to its right form
    /// `right`. Both halves inherit the node's leaf status and branching
    /// parameter and hold exactly t-1 keys. This is the single rebalancing
    /// primitive.
    pub fn split(self) -> (r: (usize, BTreeNode, BTreeNode))
        requires
            self.wf(),
            self.keys@.len() == 2 * self.minimum_degree - 1,
        ensures
            ({
                let (median, left, right) = r;
                let t = self.minimum_degree as int;
                &&& median == self.keys@[t - 1]
                &&& left.keys@ == self.keys@.subrange(0, t - 1)
                &&& right.keys@ == self.keys@.subrange(t, 2 * t - 1)
                &&& left.children@ == if self.is_leaf {
                    Seq::<BTreeNode>::empty()
                } else {
                    self.children@.subrange(0, t)
                }
                &&& right.children@ == if self.is_leaf {
                    Seq::<BTreeNode>::empty()
                } else {
                    self.children@.subrange(t, 2 * t)
                }
                &&& left.is_leaf == self.is_leaf
                &&& right.is_leaf == self.is_leaf
                &&& left.minimum_degree == self.minimum_degree
                &&& right.minimum_degree == self.minimum_degree
                &&& left.wf()
                &&& right.wf()
                &&& left.keys@.len() == t - 1
                &&& right.keys@.len() == t - 1
                &&& left.height() == self.height()
                &&& right.height() == self.height()
                &&& self.key_multiset() == left.key_multiset().add(right.key_multiset()).insert(
                    median,
                )
                &&& self.ordered() ==> {
                    &&& left.ordered()
                    &&& right.ordered()
                    &&& forall|k: usize| left.key_multiset().contains(k) ==> k < median
                    &&& forall|k: usize| right.key_multiset().contains(k) ==> k > median
                }
            }),
    {
        let mut node = self;
        let t = node.minimum_degree;
        let right_keys = node.keys.split_off(t);
        let median = node.keys.pop().unwrap();
        let right_children = if node.is_leaf {
            Vec::new()
        } else {
            node.children.split_off(t)
        };
        let left = BTreeNode {
            minimum_degree: t,
            keys: node.keys,
            children: node.children,
            is_leaf: node.is_leaf,
        };
        let right = BTreeNode {
            minimum_degree: t,
            keys: right_keys,
            children: right_children,
            is_leaf: node.is_leaf,
        };
        proof {
            assert(left.keys@ =~= self.keys@.subrange(0, self.minimum_degree - 1));
            if self.is_leaf {
                assert(left.children@ =~= Seq::<BTreeNode>::empty());
                assert(right.children@ =~= Seq::<BTreeNode>::empty());
            }
            Self::lemma_split_parts(self, left, right, median);
        }
        (median, left, right)
    }

    /// All the facts `split` promises about the two halves it builds.
    proof fn lemma_split_parts(n: BTreeNode, left: BTreeNode, right: BTreeNode, median: usize)
        requires
            n.wf(),
            n.keys@.len() == 2 * n.minimum_degree - 1,
            median == n.keys@[n.minimum_degree - 1],
            left.keys@ == n.keys@.subrange(0, n.minimum_degree - 1),
            right.keys@ == n.keys@.subrange(
                n.minimum_degree as int,
                2 * n.minimum_degree - 1,
            ),
            left.children@ == if n.is_leaf {
                Seq::<BTreeNode>::empty()
            } else {
                n.children@.subrange(0, n.minimum_degree as int)
            },
            right.children@ == if n.is_leaf {
                Seq::<BTreeNode>::empty()
            } else {
                n.children@.subrange(n.minimum_degree as int, 2 * n.minimum_degree as int)
            },
            left.is_leaf == n.is_leaf,
            right.is_leaf == n.is_leaf,
            left.minimum_degree == n.minimum_degree,
            right.minimum_degree == n.minimum_degree,
        ensures
            left.wf(),
            right.wf(),
            left.height() == n.height(),
            right.height() == n.height(),
            n.key_multiset() == left.key_multiset().add(right.key_multiset()).insert(median),
            n.ordered() ==> {
                &&& left.ordered()
                &&& right.ordered()
                &&& forall|k: usize| left.key_multiset().contains(k) ==> k < median
                &&& forall|k: usize| right.key_multiset().contains(k) ==> k > median
            },
    {
        broadcast use vstd::multiset::group_multiset_axioms;

        let t = n.minimum_degree as int;
        // Well-formedness of the two halves.
        assert(left.wf());
        assert(right.wf());
        // Heights along the leftmost path.
        if !n.is_leaf {
            assert(left.children@[0] == n.children@[0]);
            assert(right.children@[0] == n.children@[t]);
            assert(n.children@[t].height() == n.children@[0].height());
        }
        // The subtree multiset is partitioned among the halves and the median.
        let lcms = Self::children_multiset_upto(left, left.children@.len() as int);
        let rcms = Self::children_multiset_upto(right, right.children@.len() as int);
        if n.is_leaf {
            assert(Self::children_multiset_upto(n, 0) =~= lcms.add(rcms));
        } else {
            Self::lemma_cms_agree(n, left, t);
            Self::lemma_cms_suffix(n, right, t, t);
        }
        assert(n.keys@ =~= (left.keys@ + seq![median]) + right.keys@);
        vstd::seq_lib::lemma_multiset_commutative(left.keys@ + seq![median], right.keys@);
        assert(left.keys@ + seq![median] =~= left.keys@.push(median));
        vstd::seq_lib::to_multiset_build(left.keys@, median);
        assert(n.key_multiset() =~= left.key_multiset().add(right.key_multiset()).insert(median));
        // Ordering of the two halves, when the node was ordered.
        if n.ordered() {
            assert forall|k: usize| left.key_multiset().contains(k) implies k < median by {
                Self::lemma_key_multiset_membership(left, k);
                if left.keys@.contains(k) {
                    let j = left.keys@.index_of(k);
                    assert(n.keys@[j] == k);
                } else {
                    let j = choose|j: int|
                        0 <= j < left.children@.len() && (#[trigger] left.children@[j].key_multiset().contains(
                            k,
                        ));
                    assert(n.children@[j].key_multiset().contains(k));
                    assert(k < n.keys@[j]);
                }
            }
            assert forall|k: usize| right.key_multiset().contains(k) implies k > median by {
                Self::lemma_key_multiset_membership(right, k);
                if right.keys@.contains(k) {
                    let j = right.keys@.index_of(k);
                    assert(n.keys@[t + j] == k);
                } else {
                    let j = choose|j: int|
                        0 <= j < right.children@.len() && (#[trigger] right.children@[j].key_multiset().contains(
                            k,
                        ));
                    assert(n.children@[t + j].key_multiset().contains(k));
                    assert(k > n.keys@[t + j - 1]);
                    assert(n.keys@[t - 1] <= n.keys@[t + j - 1]);
                }
            }
            assert(left.ordered());
            assert forall|j: int, k: usize|
                0 <= j < right.children@.len() && (#[trigger] right.children@[j].key_multiset().contains(
                    k,
                )) implies {
                &&& (0 < j ==> right.keys@[j - 1] < k)
                &&& (j < right.keys@.len() ==> k < right.keys@[j])
            } by {
                assert(right.children@[j] == n.children@[t + j]);
                assert(n.children@[t + j].key_multiset().contains(k));
            }
            assert(right.ordered());
        }
    }
}

} // verus!
