//! How deep a graph of child lists goes below a node.
use vstd::prelude::*;

verus! {

/// Below a node with the children `kids`, every path stays inside `graph` and
/// has at most `d` edges.
#[verifier::opaque]
pub open spec fn depth_within(graph: Seq<Seq<usize>>, kids: Seq<usize>, d: nat) -> bool
    decreases d,
{
    forall|q: int|
        0 <= q < kids.len() ==> d > 0 && (#[trigger] kids[q]) < graph.len() && depth_within(
            graph,
            graph[kids[q] as int],
            (d - 1) as nat,
        )
}

/// The least `d` for which `depth_within` holds, where there is one.
pub open spec fn least_depth(graph: Seq<Seq<usize>>, kids: Seq<usize>) -> nat {
    choose|d: nat|
        depth_within(graph, kids, d) && forall|e: nat| e < d ==> !#[trigger] depth_within(
            graph,
            kids,
            e,
        )
}

/// The height of a node with the children `kids`: the number of nodes on the
/// longest path from it down to a leaf. It means something only where the
/// paths are bounded.
pub open spec fn height_of(graph: Seq<Seq<usize>>, kids: Seq<usize>) -> nat {
    1 + least_depth(graph, kids)
}

/// The height of the `r`-th of the children `kids`.
pub open spec fn child_height(graph: Seq<Seq<usize>>, kids: Seq<usize>, r: int) -> nat {
    height_of(graph, graph[kids[r] as int])
}

/// A bound on the paths below a node bounds, less one, the paths below each
/// child, and each child is a node of the graph.
pub proof fn lemma_depth_of_child(graph: Seq<Seq<usize>>, kids: Seq<usize>, d: nat, q: int)
    requires
        depth_within(graph, kids, d),
        0 <= q < kids.len(),
    ensures
        d > 0,
        kids[q] < graph.len(),
        depth_within(graph, graph[kids[q] as int], (d - 1) as nat),
{
    reveal(depth_within);
    assert(kids[q] < graph.len());
}

/// What bounds, less one, the paths below each child, bounds the paths below
/// the node.
pub proof fn lemma_depth_from_children(graph: Seq<Seq<usize>>, kids: Seq<usize>, d: nat)
    requires
        kids.len() > 0 ==> d > 0,
        forall|q: int|
            0 <= q < kids.len() ==> (#[trigger] kids[q]) < graph.len() && depth_within(
                graph,
                graph[kids[q] as int],
                (d - 1) as nat,
            ),
    ensures
        depth_within(graph, kids, d),
{
    reveal(depth_within);
}

/// A bound on the paths stays one when it grows.
pub proof fn lemma_depth_grows(graph: Seq<Seq<usize>>, kids: Seq<usize>, d: nat, e: nat)
    requires
        depth_within(graph, kids, d),
        d <= e,
    ensures
        depth_within(graph, kids, e),
    decreases d,
{
    assert forall|q: int| 0 <= q < kids.len() implies (#[trigger] kids[q]) < graph.len()
        && depth_within(graph, graph[kids[q] as int], (e - 1) as nat) by {
        lemma_depth_of_child(graph, kids, d, q);
        lemma_depth_grows(graph, graph[kids[q] as int], (d - 1) as nat, (e - 1) as nat);
    }
    if kids.len() > 0 {
        lemma_depth_of_child(graph, kids, d, 0);
    }
    lemma_depth_from_children(graph, kids, e);
}

/// Where the paths are bounded at all, `least_depth` is the least bound.
pub proof fn lemma_least_depth(graph: Seq<Seq<usize>>, kids: Seq<usize>, d: nat)
    requires
        depth_within(graph, kids, d),
    ensures
        depth_within(graph, kids, least_depth(graph, kids)),
        least_depth(graph, kids) <= d,
        forall|e: nat| e < least_depth(graph, kids) ==> !#[trigger] depth_within(graph, kids, e),
    decreases d,
{
    if exists|e: nat| e < d && #[trigger] depth_within(graph, kids, e) {
        let e = choose|e: nat| e < d && #[trigger] depth_within(graph, kids, e);
        lemma_least_depth(graph, kids, e);
    } else {
        assert(depth_within(graph, kids, d) && forall|e: nat|
            e < d ==> !#[trigger] depth_within(graph, kids, e));
    }
    let l = least_depth(graph, kids);
    if l > d {
        assert(!depth_within(graph, kids, d));
    }
}

/// A bound that the next smaller number is not, gives the height.
pub proof fn lemma_height_is(graph: Seq<Seq<usize>>, kids: Seq<usize>, d: nat)
    requires
        depth_within(graph, kids, d),
        d > 0 ==> !depth_within(graph, kids, (d - 1) as nat),
    ensures
        height_of(graph, kids) == d + 1,
{
    lemma_least_depth(graph, kids, d);
    let l = least_depth(graph, kids);
    if l < d {
        lemma_depth_grows(graph, kids, l, (d - 1) as nat);
    }
}

/// Where the paths below a node are bounded by `d`, each child is a node of
/// the graph, the paths below it are bounded by `d - 1`, and it is less high
/// than the node.
pub proof fn lemma_child_is_lower(graph: Seq<Seq<usize>>, kids: Seq<usize>, d: nat, q: int)
    requires
        depth_within(graph, kids, d),
        0 <= q < kids.len(),
    ensures
        kids[q] < graph.len(),
        d > 0,
        depth_within(graph, graph[kids[q] as int], (d - 1) as nat),
        child_height(graph, kids, q) < height_of(graph, kids),
        height_of(graph, kids) <= d + 1,
{
    lemma_least_depth(graph, kids, d);
    let l = least_depth(graph, kids);
    lemma_depth_of_child(graph, kids, l, q);
    lemma_least_depth(graph, graph[kids[q] as int], (l - 1) as nat);
    lemma_depth_of_child(graph, kids, d, q);
}

/// A leaf has height one. Any other node whose paths are bounded is one
/// higher than its highest child.
pub proof fn lemma_height_from_children(
    graph: Seq<Seq<usize>>,
    kids: Seq<usize>,
    d: nat,
    best: nat,
)
    requires
        depth_within(graph, kids, d),
        kids.len() == 0 ==> best == 0,
        forall|r: int| 0 <= r < kids.len() ==> #[trigger] child_height(graph, kids, r) <= best,
        kids.len() > 0 ==> exists|r: int|
            0 <= r < kids.len() && #[trigger] child_height(graph, kids, r) == best,
    ensures
        height_of(graph, kids) == best + 1,
{
    if kids.len() > 0 {
        let top = choose|r: int| 0 <= r < kids.len() && #[trigger] child_height(graph, kids, r) == best;
        lemma_depth_of_child(graph, kids, d, top);
        lemma_least_depth(graph, graph[kids[top] as int], (d - 1) as nat);
        assert(best >= 1);
        assert forall|q: int| 0 <= q < kids.len() implies (#[trigger] kids[q]) < graph.len()
            && depth_within(graph, graph[kids[q] as int], (best - 1) as nat) by {
            lemma_depth_of_child(graph, kids, d, q);
            lemma_least_depth(graph, graph[kids[q] as int], (d - 1) as nat);
            assert(child_height(graph, kids, q) <= best);
            lemma_depth_grows(
                graph,
                graph[kids[q] as int],
                least_depth(graph, graph[kids[q] as int]),
                (best - 1) as nat,
            );
        }
        lemma_depth_from_children(graph, kids, best);
        if depth_within(graph, kids, (best - 1) as nat) {
            lemma_depth_of_child(graph, kids, (best - 1) as nat, top);
            assert(depth_within(graph, graph[kids[top] as int], (best - 2) as nat));
            assert(false);
        }
    } else {
        lemma_depth_from_children(graph, kids, 0);
    }
    lemma_height_is(graph, kids, best);
}

} // verus!
