use vstd::prelude::*;

verus! {

/// Every edge of `graph` leads to a vertex of `graph`.
pub open spec fn edges_in_range(graph: Seq<Vec<usize>>) -> bool {
    forall|v: int, k: int| 0 <= v < graph.len() && 0 <= k < graph[v]@.len() ==> #[trigger] graph[v]@[k] < graph.len()
}

/// Every successor of a vertex listed in `r` is listed in `r` too.
pub open spec fn closed_under_edges(graph: Seq<Vec<usize>>, r: Seq<usize>, upto: int) -> bool {
    forall|i: int, k: int| 0 <= i < upto && 0 <= k < graph[r[i] as int]@.len() ==> r.contains(#[trigger] graph[r[i] as int]@[k])
}

/// `path` is a walk along edges of `graph`.
pub open spec fn is_walk(graph: Seq<Vec<usize>>, path: Seq<usize>) -> bool {
    &&& path.len() >= 1
    &&& forall|i: int| 0 <= i < path.len() ==> #[trigger] path[i] < graph.len()
    &&& forall|i: int| 0 <= i < path.len() - 1 ==> graph[#[trigger] path[i] as int]@.contains(path[i + 1])
}

/// `v` can be reached from `s` along edges of `graph`.
pub open spec fn reachable(graph: Seq<Vec<usize>>, s: usize, v: usize) -> bool {
    exists|path: Seq<usize>| #[trigger] is_walk(graph, path) && path[0] == s && path.last() == v
}

/// A vertex reaches itself.
proof fn lemma_reach_self(graph: Seq<Vec<usize>>, v: usize)
    requires
        v < graph.len(),
    ensures
        reachable(graph, v, v),
{
    let path = seq![v];
    assert(is_walk(graph, path));
}

/// An edge `u -> v` followed by a walk from `v` is a walk from `u`.
proof fn lemma_reach_prepend(graph: Seq<Vec<usize>>, u: usize, v: usize, w: usize)
    requires
        u < graph.len(),
        graph[u as int]@.contains(v),
        reachable(graph, v, w),
    ensures
        reachable(graph, u, w),
{
    let path = choose|path: Seq<usize>| #[trigger] is_walk(graph, path) && path[0] == v && path.last() == w;
    let np = seq![u] + path;
    assert forall|i: int| 0 <= i < np.len() implies #[trigger] np[i] < graph.len() by {
        if i > 0 {
            assert(np[i] == path[i - 1]);
        }
    }
    assert forall|i: int| 0 <= i < np.len() - 1 implies graph[#[trigger] np[i] as int]@.contains(np[i + 1]) by {
        if i > 0 {
            assert(np[i] == path[i - 1] && np[i + 1] == path[i]);
        } else {
            assert(np[1] == path[0]);
        }
    }
    assert(is_walk(graph, np));
    assert(np.last() == path.last());
}

/// No walk of two or more vertices returns to where it started.
pub open spec fn acyclic(graph: Seq<Vec<usize>>) -> bool {
    forall|path: Seq<usize>| #[trigger] is_walk(graph, path) && path.len() >= 2 ==> path[0] != path.last()
}

/// Every successor of a listed vertex is listed before it.
pub open spec fn successors_first(graph: Seq<Vec<usize>>, r: Seq<usize>) -> bool {
    forall|i: int, k: int|
        0 <= i < r.len() && 0 <= k < graph[r[i] as int]@.len() ==> r.subrange(0, i).contains(
            #[trigger] graph[r[i] as int]@[k],
        )
}

/// A walk to `u` followed by an edge `u -> v` is a walk to `v` of at least two vertices.
proof fn lemma_walk_append(graph: Seq<Vec<usize>>, a: usize, u: usize, v: usize) -> (np: Seq<usize>)
    requires
        v < graph.len(),
        graph[u as int]@.contains(v),
        reachable(graph, a, u),
    ensures
        is_walk(graph, np),
        np.len() >= 2,
        np[0] == a,
        np.last() == v,
{
    let path = choose|path: Seq<usize>| #[trigger] is_walk(graph, path) && path[0] == a && path.last() == u;
    let np = path.push(v);
    assert forall|i: int| 0 <= i < np.len() implies #[trigger] np[i] < graph.len() by {
        if i < path.len() {
            assert(np[i] == path[i]);
        }
    }
    assert forall|i: int| 0 <= i < np.len() - 1 implies graph[#[trigger] np[i] as int]@.contains(np[i + 1]) by {
        if i < path.len() - 1 {
            assert(np[i] == path[i] && np[i + 1] == path[i + 1]);
        } else {
            assert(np[i] == u);
        }
    }
    np
}

/// How many entries are `true`.
pub open spec fn count_true(s: Seq<bool>) -> nat
    decreases s.len(),
{
    if s.len() == 0 {
        0
    } else {
        count_true(s.drop_last()) + if s.last() {
            1nat
        } else {
            0nat
        }
    }
}

proof fn lemma_count_true_le(s: Seq<bool>)
    ensures
        count_true(s) <= s.len(),
    decreases s.len(),
{
    if s.len() > 0 {
        lemma_count_true_le(s.drop_last());
    }
}

proof fn lemma_count_true_set(s: Seq<bool>, i: int)
    requires
        0 <= i < s.len(),
        !s[i],
    ensures
        count_true(s.update(i, true)) == count_true(s) + 1,
    decreases s.len(),
{
    let t = s.update(i, true);
    if i == s.len() - 1 {
        assert(t.drop_last() =~= s.drop_last());
    } else {
        assert(t.drop_last() =~= s.drop_last().update(i, true));
        lemma_count_true_set(s.drop_last(), i);
    }
}

/// The vertices reachable from `start`, in breadth-first order.
pub fn graph_bfs(start_vertex: usize, graph: &Vec<Vec<usize>>) -> (r: Vec<usize>)
    requires
        start_vertex < graph@.len(),
        edges_in_range(graph@),
    ensures
        r@.len() >= 1,
        r@[0] == start_vertex,
        r@.no_duplicates(),
        forall|i: int| 0 <= i < r@.len() ==> #[trigger] r@[i] < graph@.len(),
        closed_under_edges(graph@, r@, r@.len() as int),
        forall|i: int| 0 <= i < r@.len() ==> reachable(graph@, start_vertex, #[trigger] r@[i]),
{
    let n = graph.len();
    let mut flag: Vec<bool> = Vec::new();
    let mut k: usize = 0;
    while k < n
        invariant
            k <= n,
            flag@.len() == k,
            forall|j: int| 0 <= j < k ==> !#[trigger] flag@[j],
        decreases n - k,
    {
        flag.push(false);
        k = k + 1;
    }
    proof {
        assert(count_true(flag@) == 0) by {
            lemma_count_zero(flag@);
        }
    }
    let mut r: Vec<usize> = Vec::new();
    r.push(start_vertex);
    proof {
        lemma_count_true_set(flag@, start_vertex as int);
    }
    flag.set(start_vertex, true);
    proof {
        assert forall|v: int| 0 <= v < n implies (#[trigger] flag@[v] <==> r@.contains(v as usize)) by {
            if r@.contains(v as usize) {
                let t = choose|t: int| 0 <= t < r@.len() && r@[t] == v as usize;
                assert(t == 0);
            }
            if v == start_vertex {
                assert(r@[0] == start_vertex);
            }
        }
    }
    let mut head: usize = 0;
    let ghost mut paths: Seq<Seq<usize>> = seq![seq![start_vertex]];
    while head < r.len()
        invariant
            paths.len() == r@.len(),
            forall|i: int| 0 <= i < paths.len() ==> #[trigger] is_walk(graph@, paths[i]) && paths[i][0] == start_vertex
                && paths[i].last() == r@[i],
            n == graph@.len(),
            edges_in_range(graph@),
            flag@.len() == n,
            count_true(flag@) == r@.len(),
            r@.len() >= 1,
            r@[0] == start_vertex,
            r@.no_duplicates(),
            head <= r@.len(),
            forall|i: int| 0 <= i < r@.len() ==> #[trigger] r@[i] < n,
            forall|v: int| 0 <= v < n ==> (#[trigger] flag@[v] <==> r@.contains(v as usize)),
            closed_under_edges(graph@, r@, head as int),
        decreases n - head,
    {
        proof {
            lemma_count_true_le(flag@);
        }
        let v = r[head];
        let adj = &graph[v];
        let mut idx: usize = 0;
        while idx < adj.len()
            invariant
                paths.len() == r@.len(),
                forall|i: int| 0 <= i < paths.len() ==> #[trigger] is_walk(graph@, paths[i]) && paths[i][0] == start_vertex
                    && paths[i].last() == r@[i],
                n == graph@.len(),
                edges_in_range(graph@),
                adj@ == graph@[v as int]@,
                v == r@[head as int],
                flag@.len() == n,
                count_true(flag@) == r@.len(),
                r@.len() >= 1,
                r@[0] == start_vertex,
                r@.no_duplicates(),
                head < r@.len(),
                idx <= adj@.len(),
                forall|i: int| 0 <= i < r@.len() ==> #[trigger] r@[i] < n,
                forall|w: int| 0 <= w < n ==> (#[trigger] flag@[w] <==> r@.contains(w as usize)),
                closed_under_edges(graph@, r@, head as int),
                forall|kk: int| 0 <= kk < idx ==> r@.contains(#[trigger] adj@[kk]),
            decreases adj@.len() - idx,
        {
            let next_vertex = adj[idx];
            proof {
                assert(graph@[v as int]@[idx as int] < n);
            }
            if !flag[next_vertex] {
                let ghost before = r@;
                proof {
                    lemma_count_true_set(flag@, next_vertex as int);
                    assert(!before.contains(next_vertex));
                }
                flag.set(next_vertex, true);
                r.push(next_vertex);
                proof {
                    let pv = paths[head as int];
                    assert(is_walk(graph@, pv));
                    assert(pv[0] == start_vertex);
                    assert(pv.last() == before[head as int]);
                    let np = pv.push(next_vertex);
                    assert(graph@[v as int]@[idx as int] == next_vertex);
                    assert(graph@[v as int]@.contains(next_vertex));
                    assert forall|i: int| 0 <= i < np.len() implies #[trigger] np[i] < graph@.len() by {
                        if i < pv.len() {
                            assert(np[i] == pv[i]);
                            assert(pv[i] < graph@.len());
                        }
                    }
                    assert forall|i: int| 0 <= i < np.len() - 1 implies graph@[#[trigger] np[i] as int]@.contains(np[i + 1]) by {
                        if i < pv.len() - 1 {
                            assert(np[i] == pv[i] && np[i + 1] == pv[i + 1]);
                            assert(graph@[pv[i] as int]@.contains(pv[i + 1]));
                        } else {
                            assert(np[i] == pv[pv.len() - 1]);
                            assert(np[i + 1] == next_vertex);
                        }
                    }
                    assert(is_walk(graph@, np));
                    let old_paths = paths;
                    paths = paths.push(np);
                    assert(r@ == before.push(next_vertex));
                    assert forall|i: int| 0 <= i < paths.len() implies #[trigger] is_walk(graph@, paths[i]) && paths[i][0] == start_vertex
                        && paths[i].last() == r@[i] by {
                        if i < old_paths.len() {
                            assert(paths[i] == old_paths[i]);
                            assert(is_walk(graph@, old_paths[i]));
                        }
                    }
                    assert forall|w: int| 0 <= w < n implies (#[trigger] flag@[w] <==> r@.contains(w as usize)) by {
                        if w != next_vertex {
                            if r@.contains(w as usize) {
                                let t = choose|t: int| 0 <= t < r@.len() && r@[t] == w as usize;
                                assert(t < before.len());
                                assert(before.contains(w as usize));
                            }
                            if before.contains(w as usize) {
                                let t = choose|t: int| 0 <= t < before.len() && before[t] == w as usize;
                                assert(r@[t] == w as usize);
                            }
                        } else {
                            assert(r@[r@.len() - 1] == next_vertex);
                        }
                    }
                    assert forall|a: int, b: int| 0 <= a < r@.len() && 0 <= b < r@.len() && a != b implies r@[a] != r@[b] by {
                        if a == r@.len() - 1 {
                            assert(!before.contains(r@[a]));
                            assert(before[b] == r@[b]);
                        } else if b == r@.len() - 1 {
                            assert(!before.contains(r@[b]));
                            assert(before[a] == r@[a]);
                        }
                    }
                    assert forall|i: int, kk: int| 0 <= i < head && 0 <= kk < graph@[r@[i] as int]@.len()
                        implies r@.contains(#[trigger] graph@[r@[i] as int]@[kk]) by {
                        assert(r@[i] == before[i]);
                        assert(before.contains(graph@[before[i] as int]@[kk]));
                        let t = choose|t: int| 0 <= t < before.len() && before[t] == graph@[before[i] as int]@[kk];
                        assert(r@[t] == before[t]);
                    }
                    assert forall|kk: int| 0 <= kk < idx implies r@.contains(#[trigger] adj@[kk]) by {
                        assert(before.contains(adj@[kk]));
                        let t = choose|t: int| 0 <= t < before.len() && before[t] == adj@[kk];
                        assert(r@[t] == before[t]);
                    }
                    assert(r@.contains(adj@[idx as int])) by {
                        assert(r@[r@.len() - 1] == next_vertex);
                    }
                }
            } else {
                proof {
                    assert(r@.contains(next_vertex));
                }
            }
            idx = idx + 1;
        }
        proof {
            assert forall|i: int, kk: int| 0 <= i < head + 1 && 0 <= kk < graph@[r@[i] as int]@.len()
                implies r@.contains(#[trigger] graph@[r@[i] as int]@[kk]) by {
                if i == head {
                    assert(adj@[kk] == graph@[r@[i] as int]@[kk]);
                }
            }
        }
        head = head + 1;
    }
    proof {
        assert forall|i: int| 0 <= i < r@.len() implies reachable(graph@, start_vertex, #[trigger] r@[i]) by {
            assert(is_walk(graph@, paths[i]));
        }
    }
    r
}

proof fn lemma_count_zero(s: Seq<bool>)
    requires
        forall|j: int| 0 <= j < s.len() ==> !#[trigger] s[j],
    ensures
        count_true(s) == 0,
    decreases s.len(),
{
    if s.len() > 0 {
        lemma_count_zero(s.drop_last());
    }
}

/// The order in which a depth-first search lists a vertex: before its
/// children, after its first child, or after all its children.
#[derive(Debug, Clone, Copy, PartialEq, Eq, Structural)]
pub enum DfsType {
    Preorder,
    Inorder,
    Postorder,
}

/// `w` was marked during the search from `vertex`, or is `vertex` itself.
pub open spec fn reached(old_flag: Seq<bool>, new_flag: Seq<bool>, vertex: int, w: int) -> bool {
    w == vertex || (new_flag[w] && !old_flag[w])
}

/// Depth-first search from `vertex`, which is already marked: marks every
/// vertex reachable through unmarked ones and lists them in the order `t`.
pub fn internal_graph_dfs(vertex: usize, flag: &mut Vec<bool>, graph: &Vec<Vec<usize>>, r: &mut Vec<usize>, t: DfsType)
    requires
        edges_in_range(graph@),
        old(flag)@.len() == graph@.len(),
        vertex < graph@.len(),
        old(flag)@[vertex as int],
        old(r)@.no_duplicates(),
        !old(r)@.contains(vertex),
        forall|i: int| 0 <= i < old(r)@.len() ==> #[trigger] old(r)@[i] < graph@.len() && old(flag)@[old(r)@[i] as int],
        t == DfsType::Postorder && acyclic(graph@) ==> successors_first(graph@, old(r)@) && forall|w: int|
            0 <= w < graph@.len() && #[trigger] old(flag)@[w] && !old(r)@.contains(w as usize) ==> reachable(graph@, w as usize, vertex),
    ensures
        final(flag)@.len() == old(flag)@.len(),
        forall|w: int| 0 <= w < old(flag)@.len() && old(flag)@[w] ==> #[trigger] final(flag)@[w],
        forall|w: int, k: int|
            0 <= w < old(flag)@.len() && reached(old(flag)@, final(flag)@, vertex as int, w) && 0 <= k < graph@[w]@.len()
                ==> final(flag)@[#[trigger] graph@[w]@[k] as int],
        final(r)@.len() >= old(r)@.len(),
        final(r)@.subrange(0, old(r)@.len() as int) == old(r)@,
        final(r)@.no_duplicates(),
        forall|i: int| 0 <= i < final(r)@.len() ==> #[trigger] final(r)@[i] < graph@.len() && final(flag)@[final(r)@[i] as int],
        forall|i: int| old(r)@.len() <= i < final(r)@.len() ==> reached(old(flag)@, final(flag)@, vertex as int, #[trigger] final(r)@[i] as int),
        t != DfsType::Inorder ==> forall|w: int|
            0 <= w < old(flag)@.len() && reached(old(flag)@, final(flag)@, vertex as int, w) ==> final(r)@.contains(w as usize),
        forall|w: int|
            0 <= w < old(flag)@.len() && reached(old(flag)@, final(flag)@, vertex as int, w) ==> reachable(graph@, vertex, w as usize),
        t == DfsType::Preorder ==> final(r)@.len() > old(r)@.len() && final(r)@[old(r)@.len() as int] == vertex,
        t == DfsType::Postorder ==> final(r)@.len() > old(r)@.len() && final(r)@[final(r)@.len() - 1] == vertex,
        t == DfsType::Postorder && acyclic(graph@) ==> successors_first(graph@, final(r)@),
    decreases graph@.len() - count_true(old(flag)@),
{
    let ghost f0 = flag@;
    let ghost r0 = r@;
    let ghost n = graph@.len();
    if t == DfsType::Preorder {
        r.push(vertex);
        proof {
            assert forall|a: int, b: int| 0 <= a < r@.len() && 0 <= b < r@.len() && a != b implies r@[a] != r@[b] by {
                if a == r@.len() - 1 {
                    assert(r0[b] == r@[b]);
                } else if b == r@.len() - 1 {
                    assert(r0[a] == r@[a]);
                }
            }
        }
    }
    let adj = &graph[vertex];
    let mut idx: usize = 0;
    proof {
        if t == DfsType::Preorder {
            assert(r@[r@.len() - 1] == vertex);
        }
        assert(r@.subrange(0, r0.len() as int) =~= r0);
    }
    while idx < adj.len()
        invariant
            n == graph@.len(),
            edges_in_range(graph@),
            adj@ == graph@[vertex as int]@,
            vertex < n,
            f0 == old(flag)@,
            r0 == old(r)@,
            flag@.len() == n,
            flag@[vertex as int],
            forall|w: int| 0 <= w < n && f0[w] ==> #[trigger] flag@[w],
            forall|w: int, k: int|
                0 <= w < n && w != vertex && flag@[w] && !f0[w] && 0 <= k < graph@[w]@.len() ==> flag@[#[trigger] graph@[w]@[k] as int],
            forall|kk: int| 0 <= kk < idx ==> flag@[#[trigger] adj@[kk] as int],
            r@.len() >= r0.len(),
            r@.subrange(0, r0.len() as int) == r0,
            r@.no_duplicates(),
            forall|i: int| 0 <= i < r@.len() ==> #[trigger] r@[i] < n && flag@[r@[i] as int],
            forall|i: int| r0.len() <= i < r@.len() ==> reached(f0, flag@, vertex as int, #[trigger] r@[i] as int),
            f0.len() == n,
            t == DfsType::Preorder ==> r@.contains(vertex),
            t == DfsType::Postorder ==> !r@.contains(vertex),
            t == DfsType::Inorder && idx == 0 ==> !r@.contains(vertex),
            t == DfsType::Preorder ==> r@.len() > r0.len() && r@[r0.len() as int] == vertex,
            forall|w: int| 0 <= w < n && flag@[w] && !f0[w] ==> reachable(graph@, vertex, w as usize),
            t == DfsType::Postorder && acyclic(graph@) ==> successors_first(graph@, r@) && (forall|w: int|
                0 <= w < n && #[trigger] flag@[w] && !r@.contains(w as usize) ==> reachable(graph@, w as usize, vertex))
                && (forall|kk: int| 0 <= kk < idx ==> r@.contains(#[trigger] adj@[kk])),
            t != DfsType::Inorder ==> forall|w: int| 0 <= w < n && w != vertex && flag@[w] && !f0[w] ==> r@.contains(w as usize),
        decreases adj@.len() - idx,
    {
        let next_vertex = adj[idx];
        proof {
            assert(graph@[vertex as int]@[idx as int] < n);
        }
        if !flag[next_vertex] {
            let ghost fb = flag@;
            let ghost rb = r@;
            proof {
                lemma_count_true_set(flag@, next_vertex as int);
                lemma_count_true_monotone(f0, fb);
                lemma_count_true_le(fb.update(next_vertex as int, true));
            }
            flag.set(next_vertex, true);
            proof {
                assert(!rb.contains(next_vertex)) by {
                    if rb.contains(next_vertex) {
                        let i = choose|i: int| 0 <= i < rb.len() && rb[i] == next_vertex;
                        assert(fb[rb[i] as int]);
                    }
                }
                assert(graph@[vertex as int]@[idx as int] == next_vertex);
                if t == DfsType::Postorder && acyclic(graph@) {
                    assert forall|w: int| 0 <= w < n && #[trigger] flag@[w] && !rb.contains(w as usize) implies reachable(
                        graph@,
                        w as usize,
                        next_vertex,
                    ) by {
                        if w == next_vertex {
                            lemma_reach_self(graph@, next_vertex);
                        } else {
                            assert(fb[w]);
                            let np = lemma_walk_append(graph@, w as usize, vertex, next_vertex);
                            assert(is_walk(graph@, np));
                        }
                    }
                }
            }
            internal_graph_dfs(next_vertex, flag, graph, r, t);
            proof {
                assert(graph@[vertex as int]@[idx as int] == next_vertex);
                assert(graph@[vertex as int]@.contains(next_vertex));
                assert forall|w: int| 0 <= w < n && flag@[w] && !f0[w] implies reachable(graph@, vertex, w as usize) by {
                    if !fb[w] {
                        assert(reached(fb.update(next_vertex as int, true), flag@, next_vertex as int, w));
                        lemma_reach_prepend(graph@, vertex, next_vertex, w as usize);
                    }
                }
                if t == DfsType::Preorder {
                    assert(r@.subrange(0, rb.len() as int)[r0.len() as int] == rb[r0.len() as int]);
                }
                assert forall|i: int| r0.len() <= i < r@.len() implies reached(f0, flag@, vertex as int, #[trigger] r@[i] as int) by {
                    if i < rb.len() {
                        assert(r@[i] == rb[i]);
                    }
                }
                assert(r@.subrange(0, r0.len() as int) =~= rb.subrange(0, r0.len() as int));
                if t != DfsType::Inorder {
                    assert forall|w: int| 0 <= w < n && w != vertex && flag@[w] && !f0[w] implies r@.contains(w as usize) by {
                        if fb[w] {
                            assert(rb.contains(w as usize));
                            let i = choose|i: int| 0 <= i < rb.len() && rb[i] == w as usize;
                            assert(r@[i] == rb[i]);
                        } else {
                            assert(reached(fb.update(next_vertex as int, true), flag@, next_vertex as int, w));
                        }
                    }
                }
                if t == DfsType::Preorder {
                    let i = choose|i: int| 0 <= i < rb.len() && rb[i] == vertex;
                    assert(r@[i] == rb[i]);
                }
                if t == DfsType::Postorder {
                    if r@.contains(vertex) {
                        let i = choose|i: int| 0 <= i < r@.len() && r@[i] == vertex;
                        if i >= rb.len() {
                            assert(reached(fb.update(next_vertex as int, true), flag@, next_vertex as int, vertex as int));
                        } else {
                            assert(rb[i] == vertex);
                        }
                    }
                    if acyclic(graph@) {
                        assert(reached(fb.update(next_vertex as int, true), flag@, next_vertex as int, next_vertex as int));
                        assert(r@.contains(next_vertex));
                        assert forall|w: int| 0 <= w < n && #[trigger] flag@[w] && !r@.contains(w as usize) implies reachable(
                            graph@,
                            w as usize,
                            vertex,
                        ) by {
                            if !fb.update(next_vertex as int, true)[w] {
                                assert(reached(fb.update(next_vertex as int, true), flag@, next_vertex as int, w));
                            } else if w == next_vertex {
                            } else {
                                assert(fb[w]);
                                if rb.contains(w as usize) {
                                    let i = choose|i: int| 0 <= i < rb.len() && rb[i] == w as usize;
                                    assert(r@.subrange(0, rb.len() as int)[i] == rb[i]);
                                    assert(r@[i] == w as usize);
                                }
                            }
                        }
                        assert forall|kk: int| 0 <= kk < idx + 1 implies r@.contains(#[trigger] adj@[kk]) by {
                            if kk < idx {
                                assert(rb.contains(adj@[kk]));
                                let i = choose|i: int| 0 <= i < rb.len() && rb[i] == adj@[kk];
                                assert(r@.subrange(0, rb.len() as int)[i] == rb[i]);
                                assert(r@[i] == adj@[kk]);
                            }
                        }
                    }
                }
            }
            if t == DfsType::Inorder && idx == 0 {
                let ghost rc = r@;
                proof {
                    assert(!rc.contains(vertex)) by {
                        if rc.contains(vertex) {
                            let i = choose|i: int| 0 <= i < rc.len() && rc[i] == vertex;
                            if i >= rb.len() {
                                assert(reached(fb.update(next_vertex as int, true), flag@, next_vertex as int, vertex as int));
                            } else {
                                assert(rb[i] == vertex);
                            }
                        }
                    }
                }
                r.push(vertex);
                proof {
                    assert forall|a: int, b: int| 0 <= a < r@.len() && 0 <= b < r@.len() && a != b implies r@[a] != r@[b] by {
                        if a == r@.len() - 1 {
                            assert(rc[b] == r@[b]);
                        } else if b == r@.len() - 1 {
                            assert(rc[a] == r@[a]);
                        }
                    }
                    assert(r@.subrange(0, r0.len() as int) =~= rc.subrange(0, r0.len() as int));
                    assert forall|i: int| r0.len() <= i < r@.len() implies reached(f0, flag@, vertex as int, #[trigger] r@[i] as int) by {
                        if i < rc.len() {
                            assert(r@[i] == rc[i]);
                        }
                    }
                }
            }
        } else {
            proof {
                if t == DfsType::Postorder && acyclic(graph@) {
                    assert(graph@[vertex as int]@[idx as int] == next_vertex);
                    assert(graph@[vertex as int]@.contains(next_vertex));
                    if !r@.contains(next_vertex) {
                        assert(flag@[next_vertex as int]);
                        let np = lemma_walk_append(graph@, next_vertex, vertex, next_vertex);
                        assert(is_walk(graph@, np));
                    }
                    assert(r@.contains(adj@[idx as int]));
                }
            }
        }
        idx = idx + 1;
    }
    if t == DfsType::Postorder {
        let ghost rc = r@;
        proof {
            assert(!rc.contains(vertex)) by {
                if rc.contains(vertex) {
                    let i = choose|i: int| 0 <= i < rc.len() && rc[i] == vertex;
                    assert(reached(f0, flag@, vertex as int, rc[i] as int));
                }
            }
        }
        r.push(vertex);
        proof {
            assert forall|a: int, b: int| 0 <= a < r@.len() && 0 <= b < r@.len() && a != b implies r@[a] != r@[b] by {
                if a == r@.len() - 1 {
                    assert(rc[b] == r@[b]);
                } else if b == r@.len() - 1 {
                    assert(rc[a] == r@[a]);
                }
            }
            assert(r@.subrange(0, r0.len() as int) =~= rc.subrange(0, r0.len() as int));
            assert forall|w: int| 0 <= w < n && w != vertex && flag@[w] && !f0[w] implies r@.contains(w as usize) by {
                assert(rc.contains(w as usize));
                let i = choose|i: int| 0 <= i < rc.len() && rc[i] == w as usize;
                assert(r@[i] == rc[i]);
            }
            assert(r@[r@.len() - 1] == vertex);
            assert forall|i: int| r0.len() <= i < r@.len() implies reached(f0, flag@, vertex as int, #[trigger] r@[i] as int) by {
                if i < rc.len() {
                    assert(r@[i] == rc[i]);
                }
            }
            if acyclic(graph@) {
                assert forall|i: int, k: int|
                    0 <= i < r@.len() && 0 <= k < graph@[r@[i] as int]@.len() implies r@.subrange(0, i).contains(
                    #[trigger] graph@[r@[i] as int]@[k],
                ) by {
                    if i < rc.len() {
                        assert(r@[i] == rc[i]);
                        assert(r@.subrange(0, i) =~= rc.subrange(0, i));
                    } else {
                        assert(r@[i] == vertex);
                        assert(r@.subrange(0, i) =~= rc);
                        assert(rc.contains(adj@[k]));
                    }
                }
            }
        }
    }
    proof {
        lemma_reach_self(graph@, vertex);
    }
}

proof fn lemma_count_true_monotone(a: Seq<bool>, b: Seq<bool>)
    requires
        a.len() == b.len(),
        forall|w: int| 0 <= w < a.len() && a[w] ==> #[trigger] b[w],
    ensures
        count_true(a) <= count_true(b),
    decreases a.len(),
{
    if a.len() > 0 {
        lemma_count_true_monotone(a.drop_last(), b.drop_last());
    }
}

/// `n` unmarked flags.
fn all_false(n: usize) -> (flag: Vec<bool>)
    ensures
        flag@.len() == n,
        forall|j: int| 0 <= j < n ==> !#[trigger] flag@[j],
{
    let mut flag: Vec<bool> = Vec::new();
    let mut k: usize = 0;
    while k < n
        invariant
            k <= n,
            flag@.len() == k,
            forall|j: int| 0 <= j < k ==> !#[trigger] flag@[j],
        decreases n - k,
    {
        flag.push(false);
        k = k + 1;
    }
    flag
}

/// Depth-first search from `start_vertex`, listing vertices in the order `t`.
/// In pre- and post-order the list holds every vertex reachable from the start.
pub fn graph_dfs(start_vertex: usize, graph: &Vec<Vec<usize>>, t: DfsType) -> (r: Vec<usize>)
    requires
        start_vertex < graph@.len(),
        edges_in_range(graph@),
    ensures
        r@.no_duplicates(),
        forall|i: int| 0 <= i < r@.len() ==> #[trigger] r@[i] < graph@.len(),
        t != DfsType::Inorder ==> r@.contains(start_vertex) && closed_under_edges(graph@, r@, r@.len() as int),
        forall|i: int| 0 <= i < r@.len() ==> reachable(graph@, start_vertex, #[trigger] r@[i]),
        t == DfsType::Preorder ==> r@.len() > 0 && r@[0] == start_vertex,
        t == DfsType::Postorder ==> r@.len() > 0 && r@[r@.len() - 1] == start_vertex,
{
    let mut r: Vec<usize> = Vec::new();
    let mut flag = all_false(graph.len());
    flag.set(start_vertex, true);
    let ghost f0 = flag@;
    proof {
        lemma_reach_self(graph@, start_vertex);
        assert forall|w: int| 0 <= w < graph@.len() && #[trigger] flag@[w] && !r@.contains(w as usize) implies reachable(
            graph@,
            w as usize,
            start_vertex,
        ) by {
            assert(w == start_vertex);
        }
    }
    internal_graph_dfs(start_vertex, &mut flag, graph, &mut r, t);
    proof {
        assert(r@.subrange(0, 0) =~= Seq::<usize>::empty());
        assert forall|i: int| 0 <= i < r@.len() implies reachable(graph@, start_vertex, #[trigger] r@[i]) by {
            assert(reached(f0, flag@, start_vertex as int, r@[i] as int));
            assert(r@[i] as int as usize == r@[i]);
        }
        if t != DfsType::Inorder {
            assert forall|w: int| 0 <= w < graph@.len() && flag@[w] implies reached(f0, flag@, start_vertex as int, w) by {}
            assert(reached(f0, flag@, start_vertex as int, start_vertex as int));
            assert forall|i: int, k: int| 0 <= i < r@.len() && 0 <= k < graph@[r@[i] as int]@.len()
                implies r@.contains(#[trigger] graph@[r@[i] as int]@[k]) by {
                let w = r@[i] as int;
                assert(flag@[w]);
                let x = graph@[w]@[k];
                assert(flag@[x as int]);
                assert(reached(f0, flag@, start_vertex as int, x as int));
                assert(x < graph@.len());
            }
        }
    }
    r
}

/// Every vertex, in the reverse of the order in which depth-first searches
/// started from each unmarked vertex in turn finish them; for a graph without
/// cycles this is a topological order.
pub fn topological_sort(graph: &Vec<Vec<usize>>) -> (r: Vec<usize>)
    requires
        edges_in_range(graph@),
    ensures
        r@.no_duplicates(),
        forall|i: int| 0 <= i < r@.len() ==> #[trigger] r@[i] < graph@.len(),
        forall|v: usize| v < graph@.len() ==> #[trigger] r@.contains(v),
        acyclic(graph@) ==> forall|i: int, k: int|
            0 <= i < r@.len() && 0 <= k < graph@[r@[i] as int]@.len() ==> r@.subrange(i + 1, r@.len() as int).contains(
                #[trigger] graph@[r@[i] as int]@[k],
            ),
{
    let n = graph.len();
    let mut r: Vec<usize> = Vec::new();
    let mut flag = all_false(n);
    let mut i: usize = 0;
    while i < n
        invariant
            n == graph@.len(),
            edges_in_range(graph@),
            flag@.len() == n,
            i <= n,
            r@.no_duplicates(),
            forall|k: int| 0 <= k < r@.len() ==> #[trigger] r@[k] < n && flag@[r@[k] as int],
            forall|v: int| 0 <= v < n && #[trigger] flag@[v] ==> r@.contains(v as usize),
            forall|v: int| 0 <= v < i ==> #[trigger] flag@[v],
            acyclic(graph@) ==> successors_first(graph@, r@),
        decreases n - i,
    {
        if !flag[i] {
            proof {
                assert(!r@.contains(i)) by {
                    if r@.contains(i) {
                        let k = choose|k: int| 0 <= k < r@.len() && r@[k] == i;
                        assert(flag@[r@[k] as int]);
                    }
                }
            }
            flag.set(i, true);
            let ghost fb = flag@;
            let ghost rb = r@;
            proof {
                assert(r@.subrange(0, r@.len() as int) =~= r@);
                lemma_reach_self(graph@, i);
                assert forall|w: int| 0 <= w < n && #[trigger] flag@[w] && !r@.contains(w as usize) implies reachable(
                    graph@,
                    w as usize,
                    i,
                ) by {
                    if w != i {
                        assert(fb[w]);
                    }
                }
            }
            internal_graph_dfs(i, &mut flag, graph, &mut r, DfsType::Postorder);
            proof {
                assert forall|v: int| 0 <= v < n && #[trigger] flag@[v] implies r@.contains(v as usize) by {
                    {
                        if fb[v] && v != i {
                            assert(rb.contains(v as usize));
                            let k = choose|k: int| 0 <= k < rb.len() && rb[k] == v as usize;
                            assert(r@.subrange(0, rb.len() as int)[k] == rb[k]);
                        } else {
                            assert(reached(fb, flag@, i as int, v));
                        }
                    }
                }
            }
        }
        i = i + 1;
    }
    let mut out: Vec<usize> = Vec::new();
    let mut k: usize = r.len();
    while k > 0
        invariant
            k <= r@.len(),
            out@.len() == r@.len() - k,
            forall|j: int| 0 <= j < out@.len() ==> #[trigger] out@[j] == r@[r@.len() - 1 - j],
        decreases k,
    {
        k = k - 1;
        out.push(r[k]);
    }
    proof {
        assert forall|a: int, b: int| 0 <= a < out@.len() && 0 <= b < out@.len() && a != b implies out@[a] != out@[b] by {
            assert(out@[a] == r@[r@.len() - 1 - a]);
            assert(out@[b] == r@[r@.len() - 1 - b]);
        }
        assert forall|v: usize| v < n implies #[trigger] out@.contains(v) by {
            assert(flag@[v as int]);
            assert(r@.contains(v));
            let j = choose|j: int| 0 <= j < r@.len() && r@[j] == v;
            assert(out@[r@.len() - 1 - j] == r@[j]);
        }
        assert forall|j: int| 0 <= j < out@.len() implies #[trigger] out@[j] < n by {
            assert(out@[j] == r@[r@.len() - 1 - j]);
        }
        if acyclic(graph@) {
            assert forall|a: int, k: int|
                0 <= a < out@.len() && 0 <= k < graph@[out@[a] as int]@.len() implies out@.subrange(a + 1, out@.len() as int).contains(
                #[trigger] graph@[out@[a] as int]@[k],
            ) by {
                let ia = r@.len() - 1 - a;
                assert(out@[a] == r@[ia]);
                let x = graph@[r@[ia] as int]@[k];
                assert(r@.subrange(0, ia).contains(x));
                let b = choose|b: int| 0 <= b < ia && r@.subrange(0, ia)[b] == x;
                assert(r@[b] == x);
                let jb = r@.len() - 1 - b;
                assert(out@[jb] == r@[b]);
                assert(out@.subrange(a + 1, out@.len() as int)[jb - a - 1] == x);
            }
        }
    }
    out
}

} // verus!
