use vstd::prelude::*;

use crate::error::EngineError;
use crate::graph::Graph;

verus! {

/// The edge `e` joins two nodes that `a` puts in different partitions.
pub open spec fn is_cut(a: Seq<u16>, e: (u64, u64)) -> bool {
    a[e.0 as int] != a[e.1 as int]
}

/// The edges of `edges` that `a` cuts, in their order.
pub open spec fn cut_edges_of(edges: Seq<(u64, u64)>, a: Seq<u16>) -> Seq<(u64, u64)> {
    edges.filter(|e: (u64, u64)| is_cut(a, e))
}

/// Both ends of every edge are below `n`.
pub open spec fn edges_within(edges: Seq<(u64, u64)>, n: nat) -> bool {
    forall|k: int| 0 <= k < edges.len() ==> (#[trigger] edges[k]).0 < n && edges[k].1 < n
}

/// An assignment that fits the graph: one label per node, and every edge
/// names two labelled nodes.
pub open spec fn fits_graph(edges: Seq<(u64, u64)>, num_nodes: nat, a: Seq<u16>) -> bool {
    a.len() == num_nodes && edges_within(edges, a.len())
}

/// The number of edges whose two ends `assignment` puts in different
/// partitions. An assignment that does not fit the graph is refused.
pub fn cut_edges(graph: &Graph, assignment: &Vec<u16>) -> (r: Result<u64, EngineError>)
    ensures
        fits_graph(graph@.edges, graph@.num_nodes, assignment@) ==> (r matches Ok(c) && c
            == cut_edges_of(graph@.edges, assignment@).len()),
        !fits_graph(graph@.edges, graph@.num_nodes, assignment@) ==> r == Err::<u64, EngineError>(
            EngineError::CorruptAssignment,
        ),
{
    let n = assignment.len();
    if n != graph.num_nodes() {
        return Err(EngineError::CorruptAssignment);
    }
    let edges = graph.edges();
    let ghost es = edges@;
    let ghost a = assignment@;
    let mut count: u64 = 0;
    let mut k: usize = 0;
    while k < edges.len()
        invariant
            es == edges@,
            es == graph@.edges,
            a == assignment@,
            n == a.len(),
            k <= es.len(),
            edges_within(es.subrange(0, k as int), n as nat),
            count == cut_edges_of(es.subrange(0, k as int), a).len(),
            count <= k,
        decreases es.len() - k,
    {
        let (s, t) = edges[k];
        let ghost sub = es.subrange(0, k + 1);
        proof {
            assert(sub.drop_last() =~= es.subrange(0, k as int));
            assert(sub.last() == (s, t));
        }
        if s >= n as u64 || t >= n as u64 {
            proof {
                assert(es[k as int] == (s, t));
                assert(!edges_within(es, n as nat));
            }
            return Err(EngineError::CorruptAssignment);
        }
        proof {
            reveal(Seq::filter);
            assert(cut_edges_of(sub, a) == if is_cut(a, (s, t)) {
                cut_edges_of(es.subrange(0, k as int), a).push((s, t))
            } else {
                cut_edges_of(es.subrange(0, k as int), a)
            });
            assert forall|m: int| 0 <= m < sub.len() implies (#[trigger] sub[m]).0 < n && sub[m].1
                < n by {
                if m < k {
                    assert(sub[m] == es.subrange(0, k as int)[m]);
                }
            }
        }
        if assignment[s as usize] != assignment[t as usize] {
            count = count + 1;
        }
        k = k + 1;
    }
    proof {
        assert(es.subrange(0, es.len() as int) =~= es);
    }
    Ok(count)
}

/// No assignment cuts more edges than the graph has.
pub proof fn lemma_cut_edges_bounded(edges: Seq<(u64, u64)>, a: Seq<u16>)
    ensures
        cut_edges_of(edges, a).len() <= edges.len(),
{
    edges.lemma_filter_len(|e: (u64, u64)| is_cut(a, e));
}

/// Exactly the cut edges are counted: an edge is among them if and only if
/// it is an edge of the graph whose ends have different labels.
pub proof fn lemma_cut_edges_members(edges: Seq<(u64, u64)>, a: Seq<u16>, e: (u64, u64))
    ensures
        cut_edges_of(edges, a).contains(e) <==> edges.contains(e) && is_cut(a, e),
    decreases edges.len(),
{
    if edges.len() > 0 {
        lemma_cut_edges_members(edges.drop_last(), a, e);
        let rest = edges.drop_last();
        if rest.contains(e) {
            let m = choose|m: int| 0 <= m < rest.len() && rest[m] == e;
            assert(edges[m] == e);
        }
        if edges.contains(e) && !rest.contains(e) {
            let m = choose|m: int| 0 <= m < edges.len() && edges[m] == e;
            if m < edges.len() - 1 {
                assert(rest[m] == e);
            }
        }
        reveal(Seq::filter);
        let f = cut_edges_of(edges, a);
        let fr = cut_edges_of(rest, a);
        if is_cut(a, edges.last()) {
            assert(f == fr.push(edges.last()));
            if fr.contains(e) {
                let m = choose|m: int| 0 <= m < fr.len() && fr[m] == e;
                assert(f[m] == e);
            }
            if f.contains(e) && e != edges.last() {
                let m = choose|m: int| 0 <= m < f.len() && f[m] == e;
                assert(fr[m] == e);
            }
            assert(f[f.len() - 1] == edges.last());
        } else {
            assert(f == fr);
        }
    }
}

} // verus!
