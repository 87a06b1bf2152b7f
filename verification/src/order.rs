//! The order in which a depth-first search visits the vertices of a graph,
//! as a mathematical function of the adjacency lists and the visited marks.

use vstd::prelude::*;
use vstd::set_lib::*;

verus! {

/// One visited mark and one adjacency list per vertex, and every neighbour
/// is a vertex of the graph.
pub open spec fn well_formed(adj: Seq<Seq<usize>>, vis: Seq<bool>) -> bool {
    &&& vis.len() == adj.len()
    &&& forall|u: int, k: int|
        0 <= u < adj.len() && 0 <= k < adj[u].len() ==> #[trigger] adj[u][k] < adj.len()
}

/// The vertices that carry no visited mark yet.
pub open spec fn unvisited(vis: Seq<bool>) -> Set<int> {
    Set::new(|v: int| 0 <= v < vis.len() && !vis[v])
}

/// Whether vertex `v` occurs in `order`.
pub open spec fn occurs(order: Seq<usize>, v: int) -> bool {
    exists|i: int| 0 <= i < order.len() && #[trigger] order[i] == v
}

/// The visited marks once every vertex of `order` has been marked.
pub open spec fn mark(vis: Seq<bool>, order: Seq<usize>) -> Seq<bool> {
    Seq::new(vis.len(), |v: int| vis[v] || occurs(order, v))
}

/// The visiting order of a search that starts at `u` with the marks `vis`:
/// `u` itself, whether marked or not, and then what the scan of its
/// neighbours adds.
pub open spec fn dfs_order(adj: Seq<Seq<usize>>, vis: Seq<bool>, u: usize) -> Seq<usize>
    decreases unvisited(vis.update(u as int, true)).len(), 1nat, 0nat,
{
    seq![u] + scan_order(adj, vis.update(u as int, true), u, 0)
}

/// The visiting order contributed by the neighbours of `u` from position
/// `k` on, in the order of the adjacency list, with the marks `vis`.
///
/// A neighbour that is already marked contributes nothing. An unmarked one
/// contributes its own whole search, and everything in that search is
/// marked before the next neighbour is looked at. A neighbour that is not a
/// vertex at all is passed over; a well-formed graph has none.
pub open spec fn scan_order(adj: Seq<Seq<usize>>, vis: Seq<bool>, u: usize, k: nat) -> Seq<usize>
    decreases unvisited(vis).len(), 0nat, adj[u as int].len() - k,
    via scan_order_decreases
{
    if u >= adj.len() || k >= adj[u as int].len() {
        Seq::empty()
    } else {
        let n = adj[u as int][k as int];
        if n >= vis.len() || vis[n as int] {
            scan_order(adj, vis, u, k + 1)
        } else {
            let first = dfs_order(adj, vis, n);
            first + scan_order(adj, mark(vis, first), u, k + 1)
        }
    }
}

#[via_fn]
proof fn scan_order_decreases(adj: Seq<Seq<usize>>, vis: Seq<bool>, u: usize, k: nat) {
    if u < adj.len() && k < adj[u as int].len() {
        let n = adj[u as int][k as int];
        if n < vis.len() && !vis[n as int] {
            lemma_visit_shrinks(vis, n as int);
            assert forall|order: Seq<usize>|
                unvisited(#[trigger] mark(vis, order)).len() <= unvisited(vis).len() by {
                lemma_mark_shrinks(vis, order);
            }
        }
    }
}

/// Only finitely many vertices are unvisited.
pub proof fn lemma_unvisited_finite(vis: Seq<bool>)
    ensures
        unvisited(vis).finite(),
        unvisited(vis).len() <= vis.len(),
{
    lemma_int_range(0, vis.len() as int);
    lemma_len_subset(unvisited(vis), set_int_range(0, vis.len() as int));
}

/// Marking an unvisited vertex leaves strictly fewer unvisited ones.
pub proof fn lemma_visit_shrinks(vis: Seq<bool>, v: int)
    requires
        0 <= v < vis.len(),
        !vis[v],
    ensures
        unvisited(vis.update(v, true)).len() < unvisited(vis).len(),
{
    lemma_unvisited_finite(vis);
    assert(unvisited(vis.update(v, true)) =~= unvisited(vis).remove(v));
}

/// Marking any vertices never adds an unvisited one.
pub proof fn lemma_mark_shrinks(vis: Seq<bool>, order: Seq<usize>)
    ensures
        unvisited(mark(vis, order)).subset_of(unvisited(vis)),
        unvisited(mark(vis, order)).len() <= unvisited(vis).len(),
{
    lemma_unvisited_finite(vis);
    lemma_len_subset(unvisited(mark(vis, order)), unvisited(vis));
}

/// A vertex occurs in a concatenation exactly if it occurs in one of the
/// two parts.
pub proof fn lemma_occurs_concat(a: Seq<usize>, b: Seq<usize>, v: int)
    ensures
        occurs(a + b, v) <==> occurs(a, v) || occurs(b, v),
{
    if occurs(a, v) {
        let i = choose|i: int| 0 <= i < a.len() && #[trigger] a[i] == v;
        assert((a + b)[i] == v);
    }
    if occurs(b, v) {
        let i = choose|i: int| 0 <= i < b.len() && #[trigger] b[i] == v;
        assert((a + b)[a.len() + i] == v);
    }
    if occurs(a + b, v) {
        let i = choose|i: int| 0 <= i < (a + b).len() && #[trigger] (a + b)[i] == v;
        if i < a.len() {
            assert(a[i] == v);
        } else {
            assert(b[i - a.len()] == v);
        }
    }
}

/// Marking two orders one after the other marks their concatenation.
pub proof fn lemma_mark_concat(vis: Seq<bool>, a: Seq<usize>, b: Seq<usize>)
    ensures
        mark(mark(vis, a), b) == mark(vis, a + b),
{
    assert forall|v: int| 0 <= v < vis.len() implies mark(mark(vis, a), b)[v] == mark(vis, a + b)[v] by {
        lemma_occurs_concat(a, b, v);
    }
}

/// Marking a single vertex of the graph sets its mark and no other.
pub proof fn lemma_mark_single(vis: Seq<bool>, u: usize)
    requires
        u < vis.len(),
    ensures
        mark(vis, seq![u]) == vis.update(u as int, true),
{
    assert(seq![u][0] == u);
}

} // verus!
