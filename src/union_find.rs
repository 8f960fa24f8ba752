//! A union-find forest whose unions create fresh nodes.
//!
//! Nodes `0..n` are the elements; each union makes the next node of
//! `n..2n` the parent of two nodes, so a parent always has a larger index
//! than its child.
use vstd::prelude::*;

verus! {

/// The root reached from `x` by following parents.
pub open spec fn root_of(parent: Seq<usize>, x: int) -> int
    decreases parent.len() - x,
{
    if 0 <= x < parent.len() && x < parent[x] < parent.len() {
        root_of(parent, parent[x] as int)
    } else {
        x
    }
}

/// Union-find forest over `2n` nodes.
#[derive(Debug, PartialEq, Eq)]
pub struct UnionFind {
    pub parent: Vec<usize>,
    pub size: Vec<usize>,
    pub next_label: usize,
}

proof fn lemma_root_is_root(parent: Seq<usize>, x: int)
    requires
        0 <= x < parent.len(),
        forall|i: int| 0 <= i < parent.len() ==> i <= #[trigger] parent[i] < parent.len(),
    ensures
        x <= root_of(parent, x) < parent.len(),
        parent[root_of(parent, x)] == root_of(parent, x),
    decreases parent.len() - x,
{
    if x < parent[x] {
        lemma_root_is_root(parent, parent[x] as int);
    }
}

/// Pointing a node straight at its own root changes no node's root.
proof fn lemma_compress(parent: Seq<usize>, p: int, root: int, i: int)
    requires
        0 <= p < parent.len(),
        0 <= i < parent.len(),
        forall|j: int| 0 <= j < parent.len() ==> j <= #[trigger] parent[j] < parent.len(),
        root == root_of(parent, p),
    ensures
        root_of(parent.update(p, root as usize), i) == root_of(parent, i),
    decreases parent.len() - i,
{
    let q = parent.update(p, root as usize);
    lemma_root_is_root(parent, p);
    if i == p {
        if root != p {
            assert(q[root] == root);
            assert(root_of(q, root) == root);
            assert(root_of(q, p) == root_of(q, root));
        } else {
            assert(q =~= parent);
        }
    } else if i < parent[i] {
        lemma_compress(parent, p, root, parent[i] as int);
    }
}

impl UnionFind {
    /// Parents point upward within the forest, and the next label is a node
    /// of it or its end.
    pub open spec fn wf(&self) -> bool {
        &&& self.parent@.len() == self.size@.len()
        &&& self.next_label <= self.parent@.len()
        &&& forall|i: int|
            0 <= i < self.parent@.len() ==> i <= #[trigger] self.parent@[i] < self.parent@.len()
    }

    /// Create an union find tree of `n` elements.
    pub fn new(n: usize) -> (r: Self)
        requires
            0 < n,
            2 * n <= usize::MAX,
        ensures
            r.wf(),
            r.parent@.len() == 2 * n,
            forall|i: int| 0 <= i < 2 * n ==> #[trigger] r.parent@[i] == i,
            forall|i: int| 0 <= i < 2 * n ==> #[trigger] r.size@[i] == if i < n {
                1usize
            } else {
                0usize
            },
            r.next_label == n,
    {
        let mut parent: Vec<usize> = Vec::new();
        let mut size: Vec<usize> = Vec::new();
        let mut i: usize = 0;
        while i < 2 * n
            invariant
                2 * n <= usize::MAX,
                i <= 2 * n,
                parent@.len() == i,
                size@.len() == i,
                forall|j: int| 0 <= j < i ==> #[trigger] parent@[j] == j,
                forall|j: int| 0 <= j < i ==> #[trigger] size@[j] == if j < n {
                    1usize
                } else {
                    0usize
                },
            decreases 2 * n - i,
        {
            parent.push(i);
            size.push(if i < n {
                1
            } else {
                0
            });
            i = i + 1;
        }
        UnionFind { parent, size, next_label: n }
    }

    /// Find the root node of the given node, pointing the nodes on the way
    /// straight at it.
    pub fn find(&mut self, x: usize) -> (r: usize)
        requires
            old(self).wf(),
            x < old(self).parent@.len(),
        ensures
            final(self).wf(),
            r == root_of(old(self).parent@, x as int),
            final(self).parent@.len() == old(self).parent@.len(),
            forall|i: int|
                0 <= i < old(self).parent@.len() ==> #[trigger] root_of(final(self).parent@, i)
                    == root_of(old(self).parent@, i),
            final(self).size@ == old(self).size@,
            final(self).next_label == old(self).next_label,
    {
        let ghost initial = self.parent@;
        let mut root = x;
        while self.parent[root] != root
            invariant
                self.wf(),
                self.parent@ == initial,
                root < initial.len(),
                root_of(initial, root as int) == root_of(initial, x as int),
            decreases initial.len() - root,
        {
            root = self.parent[root];
        }
        let mut p = x;
        while p != root
            invariant
                self.wf(),
                self.parent@.len() == initial.len(),
                self.size@ == old(self).size@,
                self.next_label == old(self).next_label,
                p < initial.len(),
                root < initial.len(),
                root == root_of(initial, x as int),
                root_of(self.parent@, p as int) == root,
                forall|i: int|
                    0 <= i < initial.len() ==> #[trigger] root_of(self.parent@, i) == root_of(initial, i),
            decreases initial.len() - p,
        {
            let next = self.parent[p];
            let ghost before = self.parent@;
            proof {
                lemma_root_is_root(before, p as int);
                assert forall|i: int| 0 <= i < initial.len() implies #[trigger] root_of(
                    before.update(p as int, root),
                    i,
                ) == root_of(initial, i) by {
                    lemma_compress(before, p as int, root as int, i);
                }
                if p < next {
                    assert(root_of(before, next as int) == root);
                }
            }
            self.parent.set(p, root);
            p = next;
        }
        root
    }

    /// Union the given nodes under the next label; return the size of the
    /// new set.
    pub fn union(&mut self, x: usize, y: usize) -> (r: usize)
        requires
            old(self).wf(),
            x < old(self).next_label,
            y < old(self).next_label,
            old(self).next_label < old(self).parent@.len(),
            old(self).size@[x as int] + old(self).size@[y as int] <= usize::MAX,
        ensures
            final(self).wf(),
            final(self).parent@ == old(self).parent@.update(x as int, old(self).next_label).update(
                y as int,
                old(self).next_label,
            ),
            r == old(self).size@[x as int] + old(self).size@[y as int],
            final(self).size@ == old(self).size@.update(old(self).next_label as int, r),
            final(self).next_label == old(self).next_label + 1,
    {
        let label = self.next_label;
        assert(label < self.parent.len());
        let total = self.size[x] + self.size[y];
        self.parent.set(x, label);
        self.parent.set(y, label);
        self.size.set(label, total);
        self.next_label = label + 1;
        total
    }
}

} // verus!
