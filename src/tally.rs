use vstd::prelude::*;

use crate::error::EngineError;
use crate::graph::Graph;
use crate::rows::{lemma_strictly_increasing_determined, strictly_increasing};

verus! {

/// The nodes that `a` puts in partition `l`, in increasing order.
pub open spec fn members(a: Seq<u16>, l: u16) -> Seq<int>
    decreases a.len(),
{
    if a.len() == 0 {
        Seq::empty()
    } else {
        let p = members(a.drop_last(), l);
        if a.last() == l {
            p.push(a.len() - 1)
        } else {
            p
        }
    }
}

/// The sum of the values `v[i]` over the positions `idx`.
pub open spec fn sum_at(v: Seq<int>, idx: Seq<int>) -> int
    decreases idx.len(),
{
    if idx.len() == 0 {
        0
    } else {
        sum_at(v, idx.drop_last()) + v[idx.last()]
    }
}

/// The sum of all values of `v`.
pub open spec fn sum_values(v: Seq<int>) -> int
    decreases v.len(),
{
    if v.len() == 0 {
        0
    } else {
        sum_values(v.drop_last()) + v.last()
    }
}

/// The tallies of the partitions `labels` summed: for each label, the sum of
/// the node values `v` over the nodes that `a` puts in it.
pub open spec fn tally_total(a: Seq<u16>, v: Seq<int>, labels: Seq<u16>) -> int
    decreases labels.len(),
{
    if labels.len() == 0 {
        0
    } else {
        tally_total(a, v, labels.drop_last()) + sum_at(v, members(a, labels.last()))
    }
}

/// The node indices `s` as integers.
pub open spec fn as_ints(s: Seq<usize>) -> Seq<int> {
    s.map_values(|x: usize| x as int)
}

/// One partition of an assignment: its label and its nodes, in increasing
/// order.
pub struct PartitionGroup {
    pub label: u16,
    pub nodes: Vec<usize>,
}

/// The groups describe `a` exactly: one per label of `a`, in increasing order
/// of label, each with the nodes that carry its label.
pub open spec fn groups_of(a: Seq<u16>, groups: Seq<PartitionGroup>) -> bool {
    &&& forall|j: int, k: int| 0 <= j < k < groups.len() ==> groups[j].label < groups[k].label
    &&& forall|j: int|
        0 <= j < groups.len() ==> as_ints((#[trigger] groups[j]).nodes@) == members(
            a,
            groups[j].label,
        )
    &&& forall|j: int| 0 <= j < groups.len() ==> a.contains((#[trigger] groups[j]).label)
    &&& forall|l: u16| a.contains(l) ==> exists|j: int| 0 <= j < groups.len() && (#[trigger] groups[j]).label == l
}

proof fn lemma_members_below(a: Seq<u16>, l: u16)
    ensures
        forall|k: int| 0 <= k < members(a, l).len() ==> 0 <= #[trigger] members(a, l)[k] < a.len(),
        forall|k: int| 0 <= k < members(a, l).len() ==> a[#[trigger] members(a, l)[k]] == l,
    decreases a.len(),
{
    if a.len() > 0 {
        lemma_members_below(a.drop_last(), l);
        let p = members(a.drop_last(), l);
        assert forall|k: int| 0 <= k < p.len() implies a[p[k]] == l by {
            assert(a.drop_last()[p[k]] == l);
        }
    }
}

proof fn lemma_members_nonempty(a: Seq<u16>, l: u16)
    ensures
        a.contains(l) <==> members(a, l).len() > 0,
    decreases a.len(),
{
    if a.len() > 0 {
        lemma_members_nonempty(a.drop_last(), l);
        if a.drop_last().contains(l) {
            let i = choose|i: int| 0 <= i < a.drop_last().len() && a.drop_last()[i] == l;
            assert(a[i] == l);
        }
        if a.contains(l) && a.last() != l {
            let i = choose|i: int| 0 <= i < a.len() && a[i] == l;
            assert(a.drop_last()[i] == l);
        }
        if a.last() == l {
            assert(a[a.len() - 1] == l);
        }
    } else {
        assert(!a.contains(l));
    }
}

proof fn lemma_sum_at_prefix(v: Seq<int>, idx: Seq<int>)
    requires
        v.len() > 0,
        forall|k: int| 0 <= k < idx.len() ==> 0 <= #[trigger] idx[k] < v.len() - 1,
    ensures
        sum_at(v, idx) == sum_at(v.drop_last(), idx),
    decreases idx.len(),
{
    if idx.len() > 0 {
        lemma_sum_at_prefix(v, idx.drop_last());
        assert(idx.last() == idx[idx.len() - 1]);
    }
}

/// One node more: the tallies grow by its value if its label is listed.
proof fn lemma_tally_total_push(a: Seq<u16>, v: Seq<int>, labels: Seq<u16>)
    requires
        a.len() == v.len(),
        a.len() > 0,
        labels.no_duplicates(),
    ensures
        tally_total(a, v, labels) == tally_total(a.drop_last(), v.drop_last(), labels) + if labels.contains(
            a.last(),
        ) {
            v.last()
        } else {
            0
        },
    decreases labels.len(),
{
    if labels.len() > 0 {
        let rest = labels.drop_last();
        let l = labels.last();
        assert(rest.no_duplicates()) by {
            assert forall|i: int, j: int| 0 <= i < j < rest.len() implies rest[i] != rest[j] by {
                assert(rest[i] == labels[i] && rest[j] == labels[j]);
            }
        }
        lemma_tally_total_push(a, v, rest);
        let ap = a.drop_last();
        lemma_members_below(ap, l);
        lemma_sum_at_prefix(v, members(ap, l));
        if a.last() == l {
            assert(labels[labels.len() - 1] == l);
            assert(!rest.contains(l)) by {
                if rest.contains(l) {
                    let i = choose|i: int| 0 <= i < rest.len() && rest[i] == l;
                    assert(labels[i] == l);
                }
            }
            assert(labels.contains(l));
            assert(members(a, l).drop_last() == members(ap, l));
        } else {
            if labels.contains(a.last()) {
                let i = choose|i: int| 0 <= i < labels.len() && labels[i] == a.last();
                assert(rest[i] == a.last());
            }
            if rest.contains(a.last()) {
                let i = choose|i: int| 0 <= i < rest.len() && rest[i] == a.last();
                assert(labels[i] == a.last());
            }
        }
    }
}

/// Conservation of tallies: over any list of distinct labels that holds every
/// label of `a`, the per-partition sums of the node values `v` add up to the
/// sum of `v` over all nodes.
pub proof fn lemma_tally_conservation(a: Seq<u16>, v: Seq<int>, labels: Seq<u16>)
    requires
        a.len() == v.len(),
        labels.no_duplicates(),
        forall|i: int| 0 <= i < a.len() ==> labels.contains(#[trigger] a[i]),
    ensures
        tally_total(a, v, labels) == sum_values(v),
    decreases a.len(),
{
    if a.len() == 0 {
        lemma_tally_total_empty(a, v, labels);
    } else {
        let ap = a.drop_last();
        assert forall|i: int| 0 <= i < ap.len() implies labels.contains(#[trigger] ap[i]) by {
            assert(ap[i] == a[i]);
        }
        lemma_tally_conservation(ap, v.drop_last(), labels);
        lemma_tally_total_push(a, v, labels);
        assert(labels.contains(a[a.len() - 1]));
    }
}

proof fn lemma_tally_total_empty(a: Seq<u16>, v: Seq<int>, labels: Seq<u16>)
    requires
        a.len() == 0,
    ensures
        tally_total(a, v, labels) == 0,
    decreases labels.len(),
{
    if labels.len() > 0 {
        lemma_tally_total_empty(a, v, labels.drop_last());
    }
}

/// The labels of the groups, in their order.
pub open spec fn group_labels(groups: Seq<PartitionGroup>) -> Seq<u16> {
    groups.map_values(|g: PartitionGroup| g.label)
}

/// Rerunning gives the same tally domain and groups: `groups_of` leaves no
/// choice of labels, order or nodes.
pub proof fn lemma_groups_determined(a: Seq<u16>, g1: Seq<PartitionGroup>, g2: Seq<PartitionGroup>)
    requires
        groups_of(a, g1),
        groups_of(a, g2),
    ensures
        group_labels(g1) == group_labels(g2),
        forall|j: int| 0 <= j < g1.len() ==> (#[trigger] g1[j]).nodes@ == g2[j].nodes@,
{
    let l1 = group_labels(g1);
    let l2 = group_labels(g2);
    assert(strictly_increasing(l1) && strictly_increasing(l2));
    assert forall|x: u16| l1.contains(x) <==> l2.contains(x) by {
        if l1.contains(x) {
            let q = choose|q: int| 0 <= q < l1.len() && l1[q] == x;
            assert(a.contains(g1[q].label));
            let r = choose|r: int| 0 <= r < g2.len() && (#[trigger] g2[r]).label == x;
            assert(l2[r] == x);
        }
        if l2.contains(x) {
            let q = choose|q: int| 0 <= q < l2.len() && l2[q] == x;
            assert(a.contains(g2[q].label));
            let r = choose|r: int| 0 <= r < g1.len() && (#[trigger] g1[r]).label == x;
            assert(l1[r] == x);
        }
    }
    lemma_strictly_increasing_determined(l1, l2);
    assert forall|j: int| 0 <= j < g1.len() implies (#[trigger] g1[j]).nodes@ == g2[j].nodes@ by {
        assert(l1[j] == l2[j]);
        let n1 = g1[j].nodes@;
        let n2 = g2[j].nodes@;
        assert(as_ints(n1) == as_ints(n2));
        assert forall|k: int| 0 <= k < n1.len() implies n1[k] == n2[k] by {
            assert(as_ints(n1)[k] == as_ints(n2)[k]);
        }
        assert(n1 =~= n2);
    }
}

/// Conservation over the groups that `partition_groups` returns: for every
/// key, the partition sums of an assignment add up to the sum over all nodes.
pub proof fn lemma_groups_conserve_tallies(a: Seq<u16>, v: Seq<int>, groups: Seq<PartitionGroup>)
    requires
        groups_of(a, groups),
        v.len() == a.len(),
    ensures
        tally_total(a, v, group_labels(groups)) == sum_values(v),
{
    let labels = group_labels(groups);
    assert forall|i: int, j: int| 0 <= i < j < labels.len() implies labels[i] != labels[j] by {
        assert(groups[i].label < groups[j].label);
    }
    assert forall|i: int| 0 <= i < a.len() implies labels.contains(#[trigger] a[i]) by {
        assert(a.contains(a[i]));
        let j = choose|j: int| 0 <= j < groups.len() && (#[trigger] groups[j]).label == a[i];
        assert(labels[j] == a[i]);
    }
    lemma_tally_conservation(a, v, labels);
}

/// The partitions of `assignment`, each with its nodes, in increasing order of
/// label: the domain of a tally row and, for each partition, the nodes whose
/// attribute values are summed into it. An assignment whose length is not the
/// graph's node count is refused.
pub fn partition_groups(graph: &Graph, assignment: &Vec<u16>) -> (r: Result<
    Vec<PartitionGroup>,
    EngineError,
>)
    ensures
        assignment@.len() == graph@.num_nodes ==> (r matches Ok(g) && groups_of(assignment@, g@)),
        assignment@.len() != graph@.num_nodes ==> r == Err::<
            Vec<PartitionGroup>,
            EngineError,
        >(EngineError::CorruptAssignment),
{
    let n = assignment.len();
    if n != graph.num_nodes() {
        return Err(EngineError::CorruptAssignment);
    }
    let ghost a = assignment@;
    let mut bound: usize = 0;
    let mut k: usize = 0;
    while k < n
        invariant
            a == assignment@,
            n == a.len(),
            k <= n,
            bound <= 65536,
            forall|i: int| 0 <= i < k ==> a[i] < bound,
        decreases n - k,
    {
        if assignment[k] as usize + 1 > bound {
            bound = assignment[k] as usize + 1;
        }
        k = k + 1;
    }
    let mut buckets: Vec<Vec<usize>> = Vec::new();
    let mut b: usize = 0;
    while b < bound
        invariant
            b <= bound,
            buckets@.len() == b,
            forall|l: int| 0 <= l < b ==> (#[trigger] buckets@[l])@.len() == 0,
        decreases bound - b,
    {
        buckets.push(Vec::new());
        b = b + 1;
    }
    let mut i: usize = 0;
    while i < n
        invariant
            a == assignment@,
            n == a.len(),
            i <= n,
            bound <= 65536,
            forall|x: int| 0 <= x < n ==> a[x] < bound,
            buckets@.len() == bound,
            forall|l: int|
                0 <= l < bound ==> as_ints((#[trigger] buckets@[l])@) == members(
                    a.subrange(0, i as int),
                    l as u16,
                ),
        decreases n - i,
    {
        let l = assignment[i] as usize;
        let ghost prev = buckets@;
        buckets[l].push(i);
        proof {
            let pre = a.subrange(0, i as int);
            let pre1 = a.subrange(0, i + 1);
            assert(pre1.drop_last() =~= pre);
            assert forall|l2: int| 0 <= l2 < bound implies as_ints((#[trigger] buckets@[l2])@)
                == members(pre1, l2 as u16) by {
                if l2 == l {
                    assert(buckets@[l2]@ == prev[l2]@.push(i));
                    assert(as_ints(buckets@[l2]@) =~= as_ints(prev[l2]@).push(i as int));
                } else {
                    assert(buckets@[l2] == prev[l2]);
                    assert((l2 as u16) != a[i as int]);
                }
            }
        }
        i = i + 1;
    }
    proof {
        assert(a.subrange(0, n as int) =~= a);
    }
    let mut groups: Vec<PartitionGroup> = Vec::new();
    let mut l: usize = 0;
    while l < bound
        invariant
            a == assignment@,
            n == a.len(),
            l <= bound,
            bound <= 65536,
            forall|x: int| 0 <= x < n ==> a[x] < bound,
            buckets@.len() == bound,
            forall|l2: int|
                l <= l2 < bound ==> as_ints((#[trigger] buckets@[l2])@) == members(a, l2 as u16),
            forall|j: int, k: int| 0 <= j < k < groups@.len() ==> groups@[j].label < groups@[k].label,
            forall|j: int| 0 <= j < groups@.len() ==> (#[trigger] groups@[j]).label < l,
            forall|j: int|
                0 <= j < groups@.len() ==> as_ints((#[trigger] groups@[j]).nodes@) == members(
                    a,
                    groups@[j].label,
                ),
            forall|j: int| 0 <= j < groups@.len() ==> a.contains((#[trigger] groups@[j]).label),
            forall|l2: u16|
                a.contains(l2) && l2 < l ==> exists|j: int|
                    0 <= j < groups@.len() && (#[trigger] groups@[j]).label == l2,
        decreases bound - l,
    {
        let mut taken: Vec<usize> = Vec::new();
        std::mem::swap(&mut buckets[l], &mut taken);
        proof {
            lemma_members_nonempty(a, l as u16);
        }
        if taken.len() > 0 {
            let ghost before = groups@;
            groups.push(PartitionGroup { label: l as u16, nodes: taken });
            proof {
                assert(groups@[groups@.len() - 1].label == l as u16);
                assert forall|l2: u16| a.contains(l2) && l2 < l + 1 implies exists|j: int|
                    0 <= j < groups@.len() && (#[trigger] groups@[j]).label == l2 by {
                    if l2 < l {
                        let j = choose|j: int| 0 <= j < before.len() && (#[trigger] before[j]).label == l2;
                        assert(groups@[j] == before[j]);
                    }
                }
            }
        } else {
            proof {
                assert(as_ints(taken@).len() == 0);
                assert forall|l2: u16| a.contains(l2) && l2 < l + 1 implies exists|j: int|
                    0 <= j < groups@.len() && (#[trigger] groups@[j]).label == l2 by {
                    if l2 == l {
                        lemma_members_nonempty(a, l2);
                    }
                }
            }
        }
        l = l + 1;
    }
    proof {
        assert forall|l2: u16| a.contains(l2) implies exists|j: int|
            0 <= j < groups@.len() && (#[trigger] groups@[j]).label == l2 by {
            let x = choose|x: int| 0 <= x < a.len() && a[x] == l2;
            assert(a[x] < bound);
        }
    }
    Ok(groups)
}

} // verus!
