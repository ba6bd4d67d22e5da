//! Rooted trees kept as a sequence of nodes that name their children by
//! index, and the height of such a tree.
pub mod depth;

use crate::tree::depth::{
    child_height, depth_within, height_of, lemma_child_is_lower, lemma_depth_from_children,
    lemma_depth_grows, lemma_height_from_children,
};
use std::fmt::Debug;
use vstd::prelude::*;

verus! {

/// A tree as a sequence of nodes; `root` is the index of its root.
#[derive(Debug)]
pub struct SequenceTree<T: Debug + Eq> {
    nodes: Vec<Node<T>>,
    root: usize,
}

/// A node with its key and the indices of its children.
#[derive(Debug)]
pub struct Node<T: Debug + Eq> {
    key: T,
    children: Vec<usize>,
}

/// A node as plain mathematical data.
pub struct NodeView<T> {
    pub key: T,
    pub children: Seq<usize>,
}

/// A tree as plain mathematical data.
pub struct TreeView<T> {
    pub nodes: Seq<NodeView<T>>,
    pub root: nat,
}

impl<T: Debug + Eq> View for Node<T> {
    type V = NodeView<T>;

    closed spec fn view(&self) -> NodeView<T> {
        NodeView { key: self.key, children: self.children@ }
    }
}

impl<T: Debug + Eq> View for SequenceTree<T> {
    type V = TreeView<T>;

    closed spec fn view(&self) -> TreeView<T> {
        TreeView { nodes: Seq::new(self.nodes@.len(), |i: int| self.nodes@[i]@), root: self.root as nat }
    }
}

/// The child lists of `nodes`, node by node.
pub open spec fn child_lists<T: Debug + Eq>(nodes: Seq<Node<T>>) -> Seq<Seq<usize>> {
    Seq::new(nodes.len(), |i: int| nodes[i]@.children)
}

impl<T: Debug + Eq> TreeView<T> {
    /// The child lists of the tree, node by node.
    pub open spec fn child_lists(self) -> Seq<Seq<usize>> {
        Seq::new(self.nodes.len(), |i: int| self.nodes[i].children)
    }

    /// The root is a node, and no path down from it is endless or leaves the
    /// tree; the height fits a machine word.
    pub open spec fn has_height(self) -> bool {
        &&& self.root < self.nodes.len()
        &&& exists|d: nat|
            d < usize::MAX && #[trigger] depth_within(
                self.child_lists(),
                self.nodes[self.root as int].children,
                d,
            )
    }

    /// The number of nodes on the longest path from the root down.
    pub open spec fn height(self) -> nat {
        height_of(self.child_lists(), self.nodes[self.root as int].children)
    }
}

impl<T> SequenceTree<T> where T: Debug + Eq + Clone {
    /// The tree with these nodes and this root.
    pub fn new(nodes: Vec<Node<T>>, root: usize) -> (tree: Self)
        ensures
            tree@.root == root,
            tree@.nodes.len() == nodes@.len(),
            forall|i: int| 0 <= i < nodes@.len() ==> tree@.nodes[i] == nodes@[i]@,
    {
        Self { nodes, root }
    }

    /// The number of nodes on the longest path from the root down to a leaf.
    pub fn height(&self) -> (h: usize)
        requires
            self@.has_height(),
        ensures
            h == self@.height(),
    {
        proof {
            assert(self@.child_lists() =~= child_lists(self.nodes@));
        }
        self.nodes[self.root].height(self.nodes.as_slice())
    }
}

impl<T> Node<T> where T: Debug + Eq + Clone {
    /// A node without children.
    pub fn new(key: T) -> (node: Self)
        ensures
            node@.key == key,
            node@.children == Seq::<usize>::empty(),
    {
        Self { key, children: Vec::new() }
    }

    /// Appends `child` to the children.
    pub fn add_child(&mut self, child: usize)
        ensures
            final(self)@.key == old(self)@.key,
            final(self)@.children == old(self)@.children.push(child),
    {
        self.children.push(child);
    }

    /// The number of nodes on the longest path from this node down to a
    /// leaf, where the children are looked up in `nodes`.
    pub fn height(&self, nodes: &[Node<T>]) -> (h: usize)
        requires
            exists|d: nat|
                d < usize::MAX && #[trigger] depth_within(child_lists(nodes@), self@.children, d),
        ensures
            h == height_of(child_lists(nodes@), self@.children),
        decreases height_of(child_lists(nodes@), self@.children),
    {
        let ghost graph = child_lists(nodes@);
        let ghost kids = self@.children;
        let ghost bound = choose|d: nat| d < usize::MAX && #[trigger] depth_within(graph, kids, d);
        let mut best: usize = 0;
        let mut q: usize = 0;
        while q < self.children.len()
            invariant
                q <= self.children.len(),
                graph == child_lists(nodes@),
                kids == self.children@,
                depth_within(graph, kids, bound),
                bound < usize::MAX,
                best <= bound,
                q == 0 ==> best == 0,
                forall|r: int| 0 <= r < q ==> #[trigger] child_height(graph, kids, r) <= best,
                q > 0 ==> exists|r: int| 0 <= r < q && #[trigger] child_height(graph, kids, r) == best,
            decreases self.children.len() - q,
        {
            let child: usize = self.children[q];
            proof {
                lemma_child_is_lower(graph, kids, bound, q as int);
                assert(graph[child as int] == nodes@[child as int]@.children);
            }
            let tall: usize = nodes[child].height(nodes);
            proof {
                assert(tall == child_height(graph, kids, q as int));
            }
            if tall > best {
                best = tall;
            }
            q += 1;
        }
        proof {
            lemma_height_from_children(graph, kids, bound, best as nat);
        }
        1 + best
    }
}

/// Every entry is `-1`, for a root, or the index of a node.
pub open spec fn valid_parents(parents: Seq<isize>) -> bool {
    forall|i: int|
        0 <= i < parents.len() ==> (#[trigger] parents[i]) == -1 || 0 <= parents[i] < parents.len()
}

/// The nodes among the first `k` whose parent is `p`, in increasing order.
pub open spec fn children_among(parents: Seq<isize>, p: int, k: int) -> Seq<usize>
    decreases k,
{
    if k <= 0 {
        Seq::empty()
    } else if parents[k - 1] == p {
        children_among(parents, p, k - 1).push((k - 1) as usize)
    } else {
        children_among(parents, p, k - 1)
    }
}

/// The last node among the first `k` that has no parent; node zero if there
/// is none.
pub open spec fn root_among(parents: Seq<isize>, k: int) -> nat
    decreases k,
{
    if k <= 0 {
        0
    } else if parents[k - 1] == -1 {
        (k - 1) as nat
    } else {
        root_among(parents, k - 1)
    }
}

/// The tree is the one that the parent of each node describes: node `i` has
/// the key `i` and, in increasing order, the children whose parent it is.
pub open spec fn built_from(tree: TreeView<usize>, parents: Seq<isize>) -> bool {
    &&& tree.nodes.len() == parents.len()
    &&& tree.root == root_among(parents, parents.len() as int)
    &&& forall|i: int|
        0 <= i < parents.len() ==> (#[trigger] tree.nodes[i]).key == i && tree.nodes[i].children
            == children_among(parents, i, parents.len() as int)
}

/// `level` gives each node a number below the number of nodes that is
/// greater than that of its parent. Such numbers exist exactly where following
/// the parents from any node ends at a root.
pub open spec fn levelled(parents: Seq<isize>, level: Seq<nat>) -> bool {
    &&& level.len() == parents.len()
    &&& forall|c: int| 0 <= c < parents.len() ==> #[trigger] level[c] < parents.len()
    &&& forall|c: int|
        0 <= c < parents.len() && parents[c] != -1 ==> level[parents[c] as int] < #[trigger] level[c]
}

/// Each listed child is a node among the first `k` whose parent is `p`.
pub proof fn lemma_children_among(parents: Seq<isize>, p: int, k: int)
    requires
        k <= parents.len() <= usize::MAX,
    ensures
        forall|q: int|
            0 <= q < children_among(parents, p, k).len() ==> {
                &&& 0 <= #[trigger] children_among(parents, p, k)[q] < k
                &&& parents[children_among(parents, p, k)[q] as int] == p
            },
    decreases k,
{
    if k > 0 {
        lemma_children_among(parents, p, k - 1);
        let now = children_among(parents, p, k);
        let before = children_among(parents, p, k - 1);
        assert forall|q: int| 0 <= q < now.len() implies 0 <= #[trigger] now[q] < k
            && parents[now[q] as int] == p by {
            if q < before.len() {
                assert(now[q] == before[q]);
            }
        }
    }
}

/// The root that is picked is a node, if there is any node.
pub proof fn lemma_root_among(parents: Seq<isize>, k: int)
    ensures
        k > 0 ==> root_among(parents, k) < k,
        k <= 0 ==> root_among(parents, k) == 0,
    decreases k,
{
    if k > 0 {
        lemma_root_among(parents, k - 1);
    }
}

/// In a tree built from levelled parents, the paths below node `i` have at
/// most as many edges as there are levels beyond its own.
pub proof fn lemma_levelled_depth(
    tree: TreeView<usize>,
    parents: Seq<isize>,
    level: Seq<nat>,
    i: int,
)
    requires
        built_from(tree, parents),
        levelled(parents, level),
        parents.len() <= usize::MAX,
        0 <= i < parents.len(),
    ensures
        depth_within(
            tree.child_lists(),
            tree.nodes[i].children,
            (parents.len() - 1 - level[i]) as nat,
        ),
    decreases parents.len() - level[i],
{
    let graph = tree.child_lists();
    let kids = tree.nodes[i].children;
    let n = parents.len() as int;
    let d = (n - 1 - level[i]) as nat;
    lemma_children_among(parents, i, n);
    assert forall|q: int| 0 <= q < kids.len() implies (#[trigger] kids[q]) < graph.len()
        && depth_within(graph, graph[kids[q] as int], (d - 1) as nat) by {
        let c = kids[q] as int;
        assert(parents[c] == i);
        assert(level[parents[c] as int] < level[c]);
        lemma_levelled_depth(tree, parents, level, c);
        lemma_depth_grows(graph, graph[c], (n - 1 - level[c]) as nat, (d - 1) as nat);
    }
    if kids.len() > 0 {
        let c = kids[0] as int;
        assert(parents[c] == i);
        assert(level[parents[c] as int] < level[c]);
    }
    lemma_depth_from_children(graph, kids, d);
}

/// A tree built from levelled parents has a height.
pub proof fn lemma_levelled_has_height(tree: TreeView<usize>, parents: Seq<isize>, level: Seq<nat>)
    requires
        built_from(tree, parents),
        levelled(parents, level),
        0 < parents.len() <= usize::MAX,
    ensures
        tree.has_height(),
{
    lemma_root_among(parents, parents.len() as int);
    lemma_levelled_depth(tree, parents, level, tree.root as int);
}

impl SequenceTree<usize> {
    /// The tree in which `parentship[i]` is the parent of node `i`, or `-1`
    /// where node `i` is a root. Node `i` gets the key `i`. The root of the
    /// tree is the last node that has no parent.
    pub fn from_input(parentship: &[isize]) -> (tree: Self)
        requires
            valid_parents(parentship@),
        ensures
            built_from(tree@, parentship@),
    {
        let n: usize = parentship.len();
        let mut nodes: Vec<Node<usize>> = Vec::new();
        let mut i: usize = 0;
        while i < n
            invariant
                i <= n,
                nodes@.len() == i,
                forall|j: int|
                    0 <= j < i ==> (#[trigger] nodes@[j])@.key == j && nodes@[j]@.children
                        == Seq::<usize>::empty(),
            decreases n - i,
        {
            nodes.push(Node::new(i));
            i += 1;
        }
        let mut root: usize = 0;
        let mut child_index: usize = 0;
        while child_index < n
            invariant
                child_index <= n,
                n == parentship@.len(),
                valid_parents(parentship@),
                nodes@.len() == n,
                root == root_among(parentship@, child_index as int),
                forall|j: int|
                    0 <= j < n ==> (#[trigger] nodes@[j])@.key == j && nodes@[j]@.children
                        == children_among(parentship@, j, child_index as int),
            decreases n - child_index,
        {
            let parent_index: isize = parentship[child_index];
            if parent_index == -1 {
                root = child_index;
            } else {
                let p: usize = parent_index as usize;
                nodes[p].add_child(child_index);
            }
            child_index += 1;
        }
        let tree = Self { nodes, root };
        proof {
            assert forall|i: int| 0 <= i < parentship@.len() implies (#[trigger] tree@.nodes[i]).key
                == i && tree@.nodes[i].children == children_among(
                parentship@,
                i,
                parentship@.len() as int,
            ) by {
                assert(tree@.nodes[i] == tree.nodes@[i]@);
            }
        }
        tree
    }
}

} // verus!
