use vstd::prelude::*;

verus! {

/// The pair `(min, max)` of two node indices: how an undirected edge is stored.
pub open spec fn ordered_pair(s: u64, t: u64) -> (u64, u64) {
    if s <= t {
        (s, t)
    } else {
        (t, s)
    }
}

/// `e` is named by the adjacency description: some node `i` lists a neighbour
/// `t` with `ordered_pair(i, t) == e`.
pub open spec fn listed_edge(adj: Seq<Seq<u64>>, e: (u64, u64)) -> bool {
    exists|i: int, j: int|
        0 <= i < adj.len() && 0 <= j < adj[i].len() && #[trigger] ordered_pair(
            i as u64,
            adj[i][j],
        ) == e
}

/// Like `listed_edge`, restricted to the entries before position `(ci, cj)` in
/// reading order.
spec fn listed_before(adj: Seq<Seq<u64>>, ci: int, cj: int, e: (u64, u64)) -> bool {
    exists|i: int, j: int|
        0 <= i < adj.len() && 0 <= j < adj[i].len() && (i < ci || (i == ci && j < cj))
            && #[trigger] ordered_pair(i as u64, adj[i][j]) == e
}

/// What a graph is, mathematically: a node count and its edge list.
pub struct GraphModel {
    pub num_nodes: nat,
    pub edges: Seq<(u64, u64)>,
}

/// A simple undirected graph: `num_nodes` nodes and a list of distinct edges,
/// each stored as `(min, max)`. It is read-only once built.
pub struct Graph {
    num_nodes: usize,
    edges: Vec<(u64, u64)>,
}

impl View for Graph {
    type V = GraphModel;

    closed spec fn view(&self) -> GraphModel {
        GraphModel { num_nodes: self.num_nodes as nat, edges: self.edges@ }
    }
}

fn contains_value(v: &Vec<u64>, x: u64) -> (r: bool)
    ensures
        r == v@.contains(x),
{
    let mut k: usize = 0;
    while k < v.len()
        invariant
            k <= v.len(),
            forall|m: int| 0 <= m < k ==> v@[m] != x,
        decreases v.len() - k,
    {
        if v[k] == x {
            return true;
        }
        k = k + 1;
    }
    false
}

impl Graph {
    /// Builds the graph of an adjacency description: node `i` has the
    /// neighbours `adj[i]`. Every listed pair becomes the edge
    /// `(min, max)`, each edge once, grouped by its smaller end.
    pub fn from_adjacency(adj: &Vec<Vec<u64>>) -> (r: Graph)
        ensures
            r@.num_nodes == adj@.len(),
            r@.edges.no_duplicates(),
            forall|e: (u64, u64)| r@.edges.contains(e) <==> listed_edge(adj.deep_view(), e),
    {
        let ghost dadj = adj.deep_view();
        let n = adj.len();
        let mut buckets: Vec<Vec<u64>> = Vec::new();
        let mut b: usize = 0;
        while b < n
            invariant
                b <= n,
                buckets@.len() == b,
                forall|s: int| 0 <= s < b ==> (#[trigger] buckets@[s])@.len() == 0,
            decreases n - b,
        {
            buckets.push(Vec::new());
            b = b + 1;
        }
        let mut i: usize = 0;
        while i < n
            invariant
                n == adj@.len(),
                dadj == adj.deep_view(),
                i <= n,
                buckets@.len() == n,
                forall|s: int| 0 <= s < n ==> (#[trigger] buckets@[s])@.no_duplicates(),
                forall|s: int, u: u64|
                    0 <= s < n ==> (#[trigger] buckets@[s]@.contains(u) <==> listed_before(
                        dadj,
                        i as int,
                        0,
                        (s as u64, u),
                    )),
            decreases n - i,
        {
            let row = &adj[i];
            let mut j: usize = 0;
            while j < row.len()
                invariant
                    n == adj@.len(),
                    dadj == adj.deep_view(),
                    i < n,
                    row@ == dadj[i as int],
                    j <= row@.len(),
                    buckets@.len() == n,
                    forall|s: int| 0 <= s < n ==> (#[trigger] buckets@[s])@.no_duplicates(),
                    forall|s: int, u: u64|
                        0 <= s < n ==> (#[trigger] buckets@[s]@.contains(u) <==> listed_before(
                            dadj,
                            i as int,
                            j as int,
                            (s as u64, u),
                        )),
                decreases row@.len() - j,
            {
                let t = row[j];
                let ii = i as u64;
                let (s, u) = if ii <= t {
                    (ii, t)
                } else {
                    (t, ii)
                };
                let su = s as usize;
                let present = contains_value(&buckets[su], u);
                proof {
                    assert(ordered_pair(i as u64, dadj[i as int][j as int]) == (s, u));
                    assert forall|s2: int, u2: u64| 0 <= s2 < n implies #[trigger] listed_before(
                        dadj,
                        i as int,
                        j + 1,
                        (s2 as u64, u2),
                    ) == (listed_before(dadj, i as int, j as int, (s2 as u64, u2)) || (s2 as u64, u2)
                        == (s, u)) by {
                        if (s2 as u64, u2) == (s, u) {
                            assert(listed_before(dadj, i as int, j + 1, (s2 as u64, u2)));
                        }
                        if listed_before(dadj, i as int, j + 1, (s2 as u64, u2)) {
                            let (i2, j2) = choose|i2: int, j2: int|
                                0 <= i2 < dadj.len() && 0 <= j2 < dadj[i2].len() && (i2 < i || (i2
                                    == i && j2 < j + 1)) && #[trigger] ordered_pair(
                                    i2 as u64,
                                    dadj[i2][j2],
                                ) == (s2 as u64, u2);
                            if !(i2 == i && j2 == j) {
                                assert(listed_before(dadj, i as int, j as int, (s2 as u64, u2)));
                            }
                        }
                    }
                }
                let ghost prev = buckets@;
                if !present {
                    buckets[su].push(u);
                }
                proof {
                    assert forall|s2: int, u2: u64| 0 <= s2 < n implies (#[trigger] buckets@[
                        s2
                    ]@.contains(u2) <==> listed_before(dadj, i as int, j + 1, (s2 as u64, u2))) by {
                        if s2 == su && !present {
                            assert(buckets@[s2]@ == prev[s2]@.push(u));
                            if u2 == u {
                                assert(buckets@[s2]@[prev[s2]@.len() as int] == u);
                            } else if buckets@[s2]@.contains(u2) {
                                let m = choose|m: int|
                                    0 <= m < buckets@[s2]@.len() && #[trigger] buckets@[s2]@[m] == u2;
                                assert(prev[s2]@[m] == u2);
                            }
                            if prev[s2]@.contains(u2) {
                                let m = choose|m: int|
                                    0 <= m < prev[s2]@.len() && #[trigger] prev[s2]@[m] == u2;
                                assert(buckets@[s2]@[m] == u2);
                            }
                        } else {
                            assert(buckets@[s2] == prev[s2]);
                        }
                    }
                }
                j = j + 1;
            }
            proof {
                assert forall|s2: int, u2: u64| 0 <= s2 < n implies #[trigger] listed_before(
                    dadj,
                    i + 1,
                    0,
                    (s2 as u64, u2),
                ) == listed_before(dadj, i as int, dadj[i as int].len() as int, (s2 as u64, u2)) by {
                    if listed_before(dadj, i + 1, 0, (s2 as u64, u2)) {
                        let (i2, j2) = choose|i2: int, j2: int|
                            0 <= i2 < dadj.len() && 0 <= j2 < dadj[i2].len() && (i2 < i + 1 || (i2
                                == i + 1 && j2 < 0)) && #[trigger] ordered_pair(
                                i2 as u64,
                                dadj[i2][j2],
                            ) == (s2 as u64, u2);
                        assert(listed_before(dadj, i as int, dadj[i as int].len() as int, (s2 as u64, u2)));
                    }
                }
            }
            i = i + 1;
        }
        let mut edges: Vec<(u64, u64)> = Vec::new();
        let mut s: usize = 0;
        while s < n
            invariant
                n == adj@.len(),
                dadj == adj.deep_view(),
                s <= n,
                buckets@.len() == n,
                forall|s2: int| 0 <= s2 < n ==> (#[trigger] buckets@[s2])@.no_duplicates(),
                forall|s2: int, u: u64|
                    0 <= s2 < n ==> (#[trigger] buckets@[s2]@.contains(u) <==> listed_before(
                        dadj,
                        n as int,
                        0,
                        (s2 as u64, u),
                    )),
                edges@.no_duplicates(),
                forall|e: (u64, u64)|
                    edges@.contains(e) <==> (e.0 < s && buckets@[e.0 as int]@.contains(e.1)),
            decreases n - s,
        {
            let bucket = &buckets[s];
            let mut k: usize = 0;
            while k < bucket.len()
                invariant
                    s < n,
                    buckets@.len() == n,
                    bucket@ == buckets@[s as int]@,
                    bucket@.no_duplicates(),
                    k <= bucket@.len(),
                    edges@.no_duplicates(),
                    forall|e: (u64, u64)|
                        edges@.contains(e) <==> ((e.0 < s && buckets@[e.0 as int]@.contains(e.1))
                            || (e.0 == s && bucket@.subrange(0, k as int).contains(e.1))),
                decreases bucket@.len() - k,
            {
                let u = bucket[k];
                proof {
                    if edges@.contains((s as u64, u)) {
                        let m = choose|m: int| 0 <= m < k && #[trigger] bucket@[m] == u;
                        assert(bucket@.subrange(0, k as int)[m] == u);
                    }
                }
                let ghost before = edges@;
                edges.push((s as u64, u));
                proof {
                    let sub = bucket@.subrange(0, k as int);
                    let sub1 = bucket@.subrange(0, k + 1);
                    assert(sub1[k as int] == u);
                    assert forall|e: (u64, u64)| #[trigger] edges@.contains(e) <==> ((e.0 < s
                        && buckets@[e.0 as int]@.contains(e.1)) || (e.0 == s && sub1.contains(
                        e.1,
                    ))) by {
                        if e.0 < s && buckets@[e.0 as int]@.contains(e.1) {
                            assert(before.contains(e));
                            let q = choose|q: int| 0 <= q < before.len() && #[trigger] before[q] == e;
                            assert(edges@[q] == e);
                        }
                        if e.0 == s && sub1.contains(e.1) {
                            let m = choose|m: int| 0 <= m < k + 1 && #[trigger] sub1[m] == e.1;
                            if m < k {
                                assert(sub[m] == e.1);
                                assert(before.contains(e));
                                let q = choose|q: int| 0 <= q < before.len() && #[trigger] before[q] == e;
                                assert(edges@[q] == e);
                            } else {
                                assert(edges@[edges@.len() - 1] == e);
                            }
                        }
                        if edges@.contains(e) {
                            let m = choose|m: int| 0 <= m < edges@.len() && #[trigger] edges@[m] == e;
                            if m < edges@.len() - 1 {
                                assert(before[m] == e);
                                assert(before.contains(e));
                                if e.0 == s {
                                    let q = choose|q: int| 0 <= q < k && #[trigger] sub[q] == e.1;
                                    assert(sub1[q] == e.1);
                                }
                            } else {
                                assert(e == (s as u64, u));
                            }
                        }
                    }
                }
                k = k + 1;
            }
            proof {
                assert(bucket@.subrange(0, bucket@.len() as int) == bucket@);
            }
            s = s + 1;
        }
        proof {
            assert forall|e: (u64, u64)| edges@.contains(e) <==> listed_edge(dadj, e) by {
                if listed_edge(dadj, e) {
                    let (i2, j2) = choose|i2: int, j2: int|
                        0 <= i2 < dadj.len() && 0 <= j2 < dadj[i2].len() && #[trigger] ordered_pair(
                            i2 as u64,
                            dadj[i2][j2],
                        ) == e;
                    assert(listed_before(dadj, n as int, 0, e));
                    assert(e.0 <= i2);
                    assert(buckets@[e.0 as int]@.contains(e.1));
                }
                if edges@.contains(e) {
                    assert(listed_before(dadj, n as int, 0, (e.0, e.1)));
                }
            }
        }
        Graph { num_nodes: n, edges }
    }

    pub fn num_nodes(&self) -> (r: usize)
        ensures
            r == self@.num_nodes,
    {
        self.num_nodes
    }

    pub fn edges(&self) -> (r: &Vec<(u64, u64)>)
        ensures
            r@ == self@.edges,
    {
        &self.edges
    }
}

} // verus!
