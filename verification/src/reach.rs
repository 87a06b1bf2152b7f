//! Which vertices a depth-first search reaches: exactly those joined to the
//! start by a walk whose later vertices are all unmarked, each listed once.

use crate::order::{
    dfs_order, lemma_mark_concat, lemma_mark_shrinks, lemma_occurs_concat, lemma_visit_shrinks,
    mark, occurs, scan_order, unvisited, well_formed,
};
use vstd::prelude::*;
use vstd::seq_lib::lemma_no_dup_in_concat;

verus! {

/// The graph has an edge from `a` to `b`.
pub open spec fn has_edge(adj: Seq<Seq<usize>>, a: int, b: int) -> bool {
    0 <= a < adj.len() && exists|k: int| 0 <= k < adj[a].len() && #[trigger] adj[a][k] == b
}

/// Position `i` of `p` is an unmarked vertex with an edge from the position
/// before it.
pub open spec fn fresh_step(adj: Seq<Seq<usize>>, vis: Seq<bool>, p: Seq<int>, i: int) -> bool {
    has_edge(adj, p[i - 1], p[i]) && 0 <= p[i] < vis.len() && !vis[p[i]]
}

/// `p` is a walk from `s` to `t` along edges of the graph whose vertices
/// after the first are all unmarked.
pub open spec fn fresh_walk(adj: Seq<Seq<usize>>, vis: Seq<bool>, p: Seq<int>, s: int, t: int) -> bool {
    &&& p.len() >= 1
    &&& p[0] == s
    &&& p[p.len() - 1] == t
    &&& forall|i: int| 1 <= i < p.len() ==> #[trigger] fresh_step(adj, vis, p, i)
}

/// `t` can be reached from `s` without stepping onto a marked vertex. The
/// start itself may be marked, and every vertex reaches itself.
pub open spec fn reachable(adj: Seq<Seq<usize>>, vis: Seq<bool>, s: int, t: int) -> bool {
    exists|p: Seq<int>| fresh_walk(adj, vis, p, s, t)
}

/// The `j`-th neighbour of `u` is unmarked and reaches `t`.
pub open spec fn opens(adj: Seq<Seq<usize>>, vis: Seq<bool>, u: int, j: int, t: int) -> bool {
    &&& adj[u][j] < vis.len()
    &&& !vis[adj[u][j] as int]
    &&& reachable(adj, vis, adj[u][j] as int, t)
}

/// Some neighbour of `u` at position `k` or later is unmarked and reaches
/// `t`.
pub open spec fn reachable_past(adj: Seq<Seq<usize>>, vis: Seq<bool>, u: int, k: int, t: int) -> bool {
    exists|j: int| k <= j < adj[u].len() && #[trigger] opens(adj, vis, u, j, t)
}

/// A walk that is fresh under more marks is fresh under fewer.
proof fn lemma_walk_fewer_marks(
    adj: Seq<Seq<usize>>,
    vis: Seq<bool>,
    more: Seq<bool>,
    p: Seq<int>,
    s: int,
    t: int,
)
    requires
        fresh_walk(adj, more, p, s, t),
        vis.len() == more.len(),
        forall|v: int| 0 <= v < vis.len() && vis[v] ==> more[v],
    ensures
        fresh_walk(adj, vis, p, s, t),
{
    assert forall|i: int| 1 <= i < p.len() implies #[trigger] fresh_step(adj, vis, p, i) by {
        assert(fresh_step(adj, more, p, i));
    }
}

/// A fresh walk from an unmarked neighbour of `s`, with `s` in front.
proof fn lemma_walk_prepend(
    adj: Seq<Seq<usize>>,
    vis: Seq<bool>,
    p: Seq<int>,
    s: int,
    x: int,
    t: int,
)
    requires
        has_edge(adj, s, x),
        0 <= x < vis.len(),
        !vis[x],
        fresh_walk(adj, vis, p, x, t),
    ensures
        fresh_walk(adj, vis, seq![s] + p, s, t),
{
    let q = seq![s] + p;
    assert forall|i: int| 1 <= i < q.len() implies #[trigger] fresh_step(adj, vis, q, i) by {
        if i >= 2 {
            assert(fresh_step(adj, vis, p, i - 1));
        }
    }
}

/// The rest of a fresh walk from any of its positions on.
proof fn lemma_walk_suffix(
    adj: Seq<Seq<usize>>,
    vis: Seq<bool>,
    p: Seq<int>,
    s: int,
    t: int,
    i: int,
)
    requires
        fresh_walk(adj, vis, p, s, t),
        0 <= i < p.len(),
    ensures
        fresh_walk(adj, vis, p.skip(i), p[i], t),
{
    let q = p.skip(i);
    assert forall|j: int| 1 <= j < q.len() implies #[trigger] fresh_step(adj, vis, q, j) by {
        assert(fresh_step(adj, vis, p, i + j));
    }
}

/// Two fresh walks that meet end to start make one.
proof fn lemma_walk_join(
    adj: Seq<Seq<usize>>,
    vis: Seq<bool>,
    p: Seq<int>,
    q: Seq<int>,
    s: int,
    m: int,
    t: int,
)
    requires
        fresh_walk(adj, vis, p, s, m),
        fresh_walk(adj, vis, q, m, t),
    ensures
        fresh_walk(adj, vis, p + q.skip(1), s, t),
{
    let r = p + q.skip(1);
    assert forall|i: int| 1 <= i < r.len() implies #[trigger] fresh_step(adj, vis, r, i) by {
        if i < p.len() {
            assert(fresh_step(adj, vis, p, i));
        } else {
            assert(fresh_step(adj, vis, q, i - p.len() + 1));
        }
    }
}

/// A fresh walk from `s` either ends at `s` or, cut after its last visit to
/// `s`, leaves through a neighbour of `s` and never comes back.
proof fn lemma_first_step(adj: Seq<Seq<usize>>, vis: Seq<bool>, p: Seq<int>, s: int, t: int)
    requires
        0 <= s < vis.len(),
        fresh_walk(adj, vis, p, s, t),
    ensures
        t == s || reachable_past(adj, vis.update(s, true), s, 0, t),
    decreases p.len(),
{
    if p.len() == 1 {
    } else if exists|i: int| 1 <= i < p.len() && #[trigger] p[i] == s {
        let i = choose|i: int| 1 <= i < p.len() && #[trigger] p[i] == s;
        lemma_walk_suffix(adj, vis, p, s, t, i);
        lemma_first_step(adj, vis, p.skip(i), s, t);
    } else {
        let vis1 = vis.update(s, true);
        let q = p.skip(1);
        lemma_walk_suffix(adj, vis, p, s, t, 1);
        assert forall|i: int| 1 <= i < q.len() implies #[trigger] fresh_step(adj, vis1, q, i) by {
            assert(fresh_step(adj, vis, q, i));
        }
        assert(fresh_walk(adj, vis1, q, p[1], t));
        assert(fresh_step(adj, vis, p, 1));
        let k = choose|k: int| 0 <= k < adj[s].len() && #[trigger] adj[s][k] == p[1];
        assert(opens(adj, vis1, s, k, t));
    }
}

/// A search from `s` lists exactly the vertices that `s` reaches without
/// stepping onto a vertex that was marked when the search began.
pub proof fn lemma_dfs_reaches(adj: Seq<Seq<usize>>, vis: Seq<bool>, s: usize)
    requires
        well_formed(adj, vis),
        s < adj.len(),
    ensures
        forall|t: int|
            #![trigger occurs(dfs_order(adj, vis, s), t)]
            #![trigger reachable(adj, vis, s as int, t)]
            occurs(dfs_order(adj, vis, s), t) <==> reachable(adj, vis, s as int, t),
    decreases unvisited(vis.update(s as int, true)).len(), 1nat, 0nat,
{
    let vis1 = vis.update(s as int, true);
    let rest = scan_order(adj, vis1, s, 0);
    lemma_scan_reaches(adj, vis1, s, 0);
    assert forall|t: int| occurs(dfs_order(adj, vis, s), t) <==> reachable(
        adj,
        vis,
        s as int,
        t,
    ) by {
        lemma_occurs_concat(seq![s], rest, t);
        if occurs(dfs_order(adj, vis, s), t) {
            if t == s {
                assert(fresh_walk(adj, vis, seq![s as int], s as int, t));
            } else {
                let j = choose|j: int|
                    0 <= j < adj[s as int].len() && #[trigger] opens(adj, vis1, s as int, j, t);
                let n = adj[s as int][j] as int;
                let p = choose|p: Seq<int>| fresh_walk(adj, vis1, p, n, t);
                lemma_walk_fewer_marks(adj, vis, vis1, p, n, t);
                lemma_walk_prepend(adj, vis, p, s as int, n, t);
            }
        }
        if reachable(adj, vis, s as int, t) {
            let p = choose|p: Seq<int>| fresh_walk(adj, vis, p, s as int, t);
            lemma_first_step(adj, vis, p, s as int, t);
            if t == s {
                assert(seq![s][0] == t);
            }
        }
    }
}

/// The scan of the neighbours of `u` from position `k` on lists exactly the
/// vertices reached from one of those neighbours over unmarked vertices
/// only.
pub proof fn lemma_scan_reaches(adj: Seq<Seq<usize>>, vis: Seq<bool>, u: usize, k: nat)
    requires
        well_formed(adj, vis),
        u < adj.len(),
        k <= adj[u as int].len(),
    ensures
        forall|t: int|
            #![trigger occurs(scan_order(adj, vis, u, k), t)]
            #![trigger reachable_past(adj, vis, u as int, k as int, t)]
            occurs(scan_order(adj, vis, u, k), t) <==> reachable_past(
                adj,
                vis,
                u as int,
                k as int,
                t,
            ),
    decreases unvisited(vis).len(), 0nat, adj[u as int].len() - k,
{
    let len = adj[u as int].len();
    if k < len {
        let n = adj[u as int][k as int];
        if vis[n as int] {
            lemma_scan_reaches(adj, vis, u, k + 1);
            assert forall|t: int|
                occurs(scan_order(adj, vis, u, k), t) <==> reachable_past(
                    adj,
                    vis,
                    u as int,
                    k as int,
                    t,
                ) by {
                if reachable_past(adj, vis, u as int, k as int, t) {
                    let j = choose|j: int| k <= j < len && #[trigger] opens(adj, vis, u as int, j, t);
                    assert(reachable_past(adj, vis, u as int, (k + 1) as int, t));
                }
                if occurs(scan_order(adj, vis, u, k), t) {
                    assert(reachable_past(adj, vis, u as int, (k + 1) as int, t));
                }
            }
        } else {
            let first = dfs_order(adj, vis, n);
            let vis2 = mark(vis, first);
            let rest = scan_order(adj, vis2, u, k + 1);
            lemma_visit_shrinks(vis, n as int);
            lemma_dfs_reaches(adj, vis, n);
            lemma_mark_shrinks(vis, first);
            lemma_scan_reaches(adj, vis2, u, k + 1);
            assert forall|t: int|
                occurs(scan_order(adj, vis, u, k), t) <==> reachable_past(
                    adj,
                    vis,
                    u as int,
                    k as int,
                    t,
                ) by {
                lemma_occurs_concat(first, rest, t);
                if occurs(first, t) {
                    assert(opens(adj, vis, u as int, k as int, t));
                }
                if occurs(rest, t) {
                    let j = choose|j: int|
                        k + 1 <= j < len && #[trigger] opens(adj, vis2, u as int, j, t);
                    let m = adj[u as int][j] as int;
                    let p = choose|p: Seq<int>| fresh_walk(adj, vis2, p, m, t);
                    lemma_walk_fewer_marks(adj, vis, vis2, p, m, t);
                    assert(opens(adj, vis, u as int, j, t));
                }
                if reachable_past(adj, vis, u as int, k as int, t) {
                    let j = choose|j: int| k <= j < len && #[trigger] opens(adj, vis, u as int, j, t);
                    if j > k {
                        let m = adj[u as int][j] as int;
                        let p = choose|p: Seq<int>| fresh_walk(adj, vis, p, m, t);
                        if exists|i: int| 0 <= i < p.len() && occurs(first, #[trigger] p[i]) {
                            let i = choose|i: int| 0 <= i < p.len() && occurs(first, #[trigger] p[i]);
                            let q = choose|q: Seq<int>| fresh_walk(adj, vis, q, n as int, p[i]);
                            lemma_walk_suffix(adj, vis, p, m, t, i);
                            lemma_walk_join(adj, vis, q, p.skip(i), n as int, p[i], t);
                        } else {
                            assert forall|i: int| 1 <= i < p.len() implies #[trigger] fresh_step(
                                adj,
                                vis2,
                                p,
                                i,
                            ) by {
                                assert(fresh_step(adj, vis, p, i));
                            }
                            assert(fresh_walk(adj, vis2, p, m, t));
                            assert(opens(adj, vis2, u as int, j, t));
                        }
                    }
                }
            }
        }
    }
}

/// A search lists no vertex twice. It begins with its start, and every
/// vertex after that is one that was unmarked when the search began.
pub proof fn lemma_dfs_distinct(adj: Seq<Seq<usize>>, vis: Seq<bool>, s: usize)
    requires
        well_formed(adj, vis),
        s < adj.len(),
    ensures
        dfs_order(adj, vis, s).no_duplicates(),
        dfs_order(adj, vis, s)[0] == s,
        forall|i: int|
            1 <= i < dfs_order(adj, vis, s).len() ==> {
                let v = #[trigger] dfs_order(adj, vis, s)[i];
                v < vis.len() && !vis[v as int] && v != s
            },
    decreases unvisited(vis.update(s as int, true)).len(), 1nat, 0nat,
{
    let vis1 = vis.update(s as int, true);
    let rest = scan_order(adj, vis1, s, 0);
    lemma_scan_distinct(adj, vis1, s, 0);
    lemma_no_dup_in_concat(seq![s], rest);
    assert forall|i: int| 1 <= i < dfs_order(adj, vis, s).len() implies {
        let v = #[trigger] dfs_order(adj, vis, s)[i];
        v < vis.len() && !vis[v as int] && v != s
    } by {
        assert(dfs_order(adj, vis, s)[i] == rest[i - 1]);
    }
}

/// The scan of the neighbours of `u` lists no vertex twice, and only
/// vertices that were unmarked when the scan began.
pub proof fn lemma_scan_distinct(adj: Seq<Seq<usize>>, vis: Seq<bool>, u: usize, k: nat)
    requires
        well_formed(adj, vis),
        u < adj.len(),
        k <= adj[u as int].len(),
    ensures
        scan_order(adj, vis, u, k).no_duplicates(),
        forall|i: int|
            0 <= i < scan_order(adj, vis, u, k).len() ==> {
                let v = #[trigger] scan_order(adj, vis, u, k)[i];
                v < vis.len() && !vis[v as int]
            },
    decreases unvisited(vis).len(), 0nat, adj[u as int].len() - k,
{
    if k < adj[u as int].len() {
        let n = adj[u as int][k as int];
        if vis[n as int] {
            lemma_scan_distinct(adj, vis, u, k + 1);
        } else {
            let first = dfs_order(adj, vis, n);
            let vis2 = mark(vis, first);
            let rest = scan_order(adj, vis2, u, k + 1);
            lemma_visit_shrinks(vis, n as int);
            lemma_dfs_distinct(adj, vis, n);
            lemma_mark_shrinks(vis, first);
            lemma_scan_distinct(adj, vis2, u, k + 1);
            assert forall|i: int, j: int| 0 <= i < first.len() && 0 <= j < rest.len() implies first[i]
                != rest[j] by {
                assert(!occurs(first, rest[j] as int));
            }
            lemma_no_dup_in_concat(first, rest);
        }
    }
}

/// Where every neighbour of `u` from position `k` on is marked, the scan
/// lists nothing.
pub proof fn lemma_scan_nothing_new(adj: Seq<Seq<usize>>, vis: Seq<bool>, u: usize, k: nat)
    requires
        u < adj.len(),
        forall|j: int|
            k <= j < adj[u as int].len() ==> {
                let n = #[trigger] adj[u as int][j];
                n < vis.len() && vis[n as int]
            },
    ensures
        scan_order(adj, vis, u, k) == Seq::<usize>::empty(),
    decreases adj[u as int].len() - k,
{
    if k < adj[u as int].len() {
        lemma_scan_nothing_new(adj, vis, u, k + 1);
    }
}

/// A search from a vertex whose neighbours are all marked, or are the
/// vertex itself, lists that vertex alone.
pub proof fn lemma_dfs_nothing_new(adj: Seq<Seq<usize>>, vis: Seq<bool>, s: usize)
    requires
        well_formed(adj, vis),
        s < adj.len(),
        forall|j: int|
            0 <= j < adj[s as int].len() ==> {
                let n = #[trigger] adj[s as int][j];
                n == s || vis[n as int]
            },
    ensures
        dfs_order(adj, vis, s) == seq![s],
{
    lemma_scan_nothing_new(adj, vis.update(s as int, true), s, 0);
}

/// Searching twice in a row from the same start: the marks of the first
/// search stay, so the second search lists the start alone and marks
/// nothing new.
pub proof fn lemma_dfs_again(adj: Seq<Seq<usize>>, vis: Seq<bool>, s: usize)
    requires
        well_formed(adj, vis),
        s < adj.len(),
    ensures
        dfs_order(adj, mark(vis, dfs_order(adj, vis, s)), s) == seq![s],
        mark(mark(vis, dfs_order(adj, vis, s)), seq![s]) == mark(vis, dfs_order(adj, vis, s)),
{
    let first = dfs_order(adj, vis, s);
    let after = mark(vis, first);
    lemma_dfs_reaches(adj, vis, s);
    assert forall|j: int| 0 <= j < adj[s as int].len() implies {
        let n = #[trigger] adj[s as int][j];
        n == s || after[n as int]
    } by {
        let n = adj[s as int][j];
        if !vis[n as int] {
            let p = seq![s as int, n as int];
            assert(fresh_walk(adj, vis, p, s as int, n as int));
        }
    }
    lemma_dfs_nothing_new(adj, after, s);
    assert(first[0] == s);
}

} // verus!
