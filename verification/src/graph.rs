//! A directed graph over densely numbered vertices, stored as adjacency
//! lists, with a depth-first search that keeps its visited marks between
//! calls.

use crate::order::{
    dfs_order, lemma_mark_concat, lemma_mark_shrinks, lemma_mark_single, lemma_visit_shrinks, mark,
    occurs, scan_order, unvisited, well_formed,
};
use crate::reach::{lemma_dfs_distinct, lemma_dfs_reaches, reachable};
use vstd::prelude::*;

verus! {

/// What a [`Graph`] stands for in contracts: the visited mark of each vertex
/// and, for each vertex, its neighbours in the order the edges were added.
pub struct GraphView {
    pub visited: Seq<bool>,
    pub adj: Seq<Seq<usize>>,
}

impl GraphView {
    /// One visited mark and one adjacency list per vertex, and every
    /// neighbour is a vertex of the graph.
    pub open spec fn wf(self) -> bool {
        well_formed(self.adj, self.visited)
    }
}

/// A directed graph with a fixed number of vertices `0..v`.
///
/// Edges are kept per source vertex in insertion order, duplicates
/// included. The visited marks are part of the graph: a search sets them
/// and nothing clears them.
pub struct Graph {
    visited: Vec<bool>,
    adj_lists: Vec<Vec<usize>>,
}

impl View for Graph {
    type V = GraphView;

    closed spec fn view(&self) -> GraphView {
        GraphView {
            visited: self.visited@,
            adj: Seq::new(self.adj_lists@.len(), |u: int| self.adj_lists@[u]@),
        }
    }
}

impl Clone for Graph {
    /// A second graph with the same edges and the same marks.
    fn clone(&self) -> (res: Self)
        ensures
            res@ == self@,
    {
        let res = Self { visited: self.visited.clone(), adj_lists: self.adj_lists.clone() };
        proof {
            assert forall|u: int| 0 <= u < self.adj_lists@.len() implies res.adj_lists@[u]@
                == self.adj_lists@[u]@ by {
                assert(res.adj_lists@[u]@ =~= self.adj_lists@[u]@);
            }
            assert(res@.adj =~= self@.adj);
        }
        res
    }
}

impl Graph {
    /// The graph's invariant, stated over its view.
    pub open spec fn wf(&self) -> bool {
        self@.wf()
    }

    /// A graph of `v` vertices with no edge and no vertex visited.
    pub fn new(v: usize) -> (g: Self)
        ensures
            g.wf(),
            g@.visited == Seq::new(v as nat, |u: int| false),
            g@.adj == Seq::new(v as nat, |u: int| Seq::<usize>::empty()),
    {
        let mut visited: Vec<bool> = Vec::new();
        let mut adj_lists: Vec<Vec<usize>> = Vec::new();
        let mut i: usize = 0;
        while i < v
            invariant
                i <= v,
                visited@.len() == i,
                adj_lists@.len() == i,
                forall|u: int| 0 <= u < i ==> !visited@[u],
                forall|u: int| 0 <= u < i ==> (#[trigger] adj_lists@[u])@.len() == 0,
            decreases v - i,
        {
            visited.push(false);
            adj_lists.push(Vec::new());
            i += 1;
        }
        let g = Self { visited, adj_lists };
        assert forall|u: int| 0 <= u < v implies #[trigger] g@.adj[u] == Seq::<usize>::empty() by {
            assert(g.adj_lists@[u]@ =~= Seq::<usize>::empty());
        }
        g
    }

    /// Appends the edge `src -> dest` to the adjacency list of `src`.
    ///
    /// Both ends must be vertices of the graph. Nothing is deduplicated and
    /// the visited marks are left as they are.
    pub fn add_edge(&mut self, src: usize, dest: usize)
        requires
            old(self).wf(),
            src < old(self)@.adj.len(),
            dest < old(self)@.adj.len(),
        ensures
            final(self).wf(),
            final(self)@.visited == old(self)@.visited,
            final(self)@.adj == old(self)@.adj.update(
                src as int,
                old(self)@.adj[src as int].push(dest),
            ),
    {
        self.adj_lists[src].push(dest);
        assert(self@.adj =~= old(self)@.adj.update(
            src as int,
            old(self)@.adj[src as int].push(dest),
        ));
    }

    /// Depth-first search from `vertex`, in visiting order.
    ///
    /// The start vertex comes first, whether it was marked before or not.
    /// Then each neighbour, in the order its edge was added, is searched in
    /// turn if it is still unmarked at that moment. Every vertex of the
    /// result is marked in the graph afterwards, and the marks that were
    /// there before the call stay.
    pub fn dfs(&mut self, vertex: usize) -> (result: Vec<usize>)
        requires
            old(self).wf(),
            vertex < old(self)@.adj.len(),
        ensures
            final(self).wf(),
            final(self)@.adj == old(self)@.adj,
            result@ == dfs_order(old(self)@.adj, old(self)@.visited, vertex),
            final(self)@.visited == mark(old(self)@.visited, result@),
            result@.len() >= 1,
            result@[0] == vertex,
            result@.no_duplicates(),
            forall|t: int|
                #![trigger occurs(result@, t)]
                #![trigger reachable(old(self)@.adj, old(self)@.visited, vertex as int, t)]
                occurs(result@, t) <==> reachable(
                    old(self)@.adj,
                    old(self)@.visited,
                    vertex as int,
                    t,
                ),
        decreases unvisited(old(self)@.visited.update(vertex as int, true)).len(),
    {
        let mut result: Vec<usize> = Vec::new();
        self.visited[vertex] = true;
        result.push(vertex);
        let ghost adj = self@.adj;
        let ghost started = self@.visited;
        proof {
            lemma_mark_single(old(self)@.visited, vertex);
            assert(result@ + scan_order(adj, started, vertex, 0) =~= dfs_order(
                adj,
                old(self)@.visited,
                vertex,
            ));
        }
        let mut k: usize = 0;
        while k < self.adj_lists[vertex].len()
            invariant
                self.wf(),
                self@.adj == adj,
                vertex < adj.len(),
                k <= adj[vertex as int].len(),
                started == old(self)@.visited.update(vertex as int, true),
                result@ + scan_order(adj, self@.visited, vertex, k as nat) == dfs_order(
                    adj,
                    old(self)@.visited,
                    vertex,
                ),
                self@.visited == mark(old(self)@.visited, result@),
                unvisited(self@.visited).len() <= unvisited(started).len(),
            decreases adj[vertex as int].len() - k,
        {
            let n: usize = self.adj_lists[vertex][k];
            if !self.visited[n] {
                let ghost before = self@.visited;
                let ghost done = result@;
                proof {
                    lemma_visit_shrinks(before, n as int);
                }
                let mut found = self.dfs(n);
                proof {
                    lemma_mark_concat(old(self)@.visited, done, found@);
                    lemma_mark_shrinks(before, found@);
                    assert((done + found@) + scan_order(adj, self@.visited, vertex, (k + 1) as nat)
                        =~= done + scan_order(adj, before, vertex, k as nat));
                }
                result.append(&mut found);
            }
            k += 1;
        }
        proof {
            lemma_dfs_distinct(adj, old(self)@.visited, vertex);
            lemma_dfs_reaches(adj, old(self)@.visited, vertex);
        }
        result
    }
}

} // verus!
