use ben_tally::{
    align_columns, cut_edges, first_disagreement, observed_labels, partition_groups,
    track_changes, ChangeTracker, EngineError, Graph, PartitionGroup, RowCounter, RowHeader,
};

fn path_graph(n: u64) -> Graph {
    let mut adj: Vec<Vec<u64>> = Vec::new();
    for i in 0..n {
        let mut row = Vec::new();
        if i > 0 {
            row.push(i - 1);
        }
        if i + 1 < n {
            row.push(i + 1);
        }
        adj.push(row);
    }
    Graph::from_adjacency(&adj)
}

fn tally(groups: &Vec<PartitionGroup>, values: &[f64]) -> Vec<(u16, f64)> {
    groups
        .iter()
        .map(|g| (g.label, g.nodes.iter().fold(0.0, |acc, &i| acc + values[i])))
        .collect()
}

#[test]
fn adjacency_edges_are_ordered_and_deduplicated() {
    let g = Graph::from_adjacency(&vec![vec![1, 2], vec![0, 2], vec![1, 0]]);
    assert_eq!(g.num_nodes(), 3);
    assert_eq!(g.edges(), &vec![(0, 1), (0, 2), (1, 2)]);
}

#[test]
fn adjacency_one_sided_listing_still_gives_edge() {
    let g = Graph::from_adjacency(&vec![vec![], vec![], vec![0]]);
    assert_eq!(g.edges(), &vec![(0, 2)]);
}

#[test]
fn cut_edges_two_records_with_counters() {
    let g = path_graph(4);
    assert_eq!(g.edges(), &vec![(0, 1), (1, 2), (2, 3)]);
    let records: Vec<(Vec<u16>, u16)> = vec![(vec![0, 0, 1, 1], 1), (vec![0, 1, 1, 1], 2)];
    let mut counter = RowCounter::new();
    let mut cuts = Vec::new();
    let mut headers = Vec::new();
    for (a, reps) in &records {
        cuts.push(cut_edges(&g, a).unwrap());
        headers.push(counter.record(*reps).unwrap());
    }
    assert_eq!(cuts, vec![1, 1]);
    assert_eq!(headers.iter().map(|h| h.accepted).collect::<Vec<_>>(), vec![1, 2]);
    assert_eq!(headers.iter().map(|h| h.step).collect::<Vec<_>>(), vec![1, 2]);
    assert_eq!(headers[1], RowHeader { step: 2, n_reps: 2, accepted: 2 });
    assert_eq!(counter.sample_count(), 4);
    assert_eq!(counter.accepted_count(), 3);
}

#[test]
fn cut_edges_match_brute_force_on_all_two_label_assignments() {
    let adj = vec![vec![1, 2], vec![0, 3], vec![0, 3], vec![1, 2]];
    let g = Graph::from_adjacency(&adj);
    let edges = g.edges().clone();
    for mask in 0u32..16 {
        let a: Vec<u16> = (0..4).map(|i| ((mask >> i) & 1) as u16).collect();
        let expected = edges.iter().filter(|(s, t)| a[*s as usize] != a[*t as usize]).count();
        let got = cut_edges(&g, &a).unwrap();
        assert_eq!(got as usize, expected);
        assert!(got as usize <= edges.len());
    }
}

#[test]
fn cut_edges_all_cut_and_none_cut() {
    let g = path_graph(4);
    assert_eq!(cut_edges(&g, &vec![0, 1, 0, 1]).unwrap(), 3);
    assert_eq!(cut_edges(&g, &vec![7, 7, 7, 7]).unwrap(), 0);
}

#[test]
fn cut_edges_refuses_wrong_length() {
    let g = path_graph(4);
    assert_eq!(cut_edges(&g, &vec![0, 1, 0]), Err(EngineError::CorruptAssignment));
}

#[test]
fn cut_edges_refuses_edge_outside_assignment() {
    let g = Graph::from_adjacency(&vec![vec![5], vec![], vec![]]);
    assert_eq!(cut_edges(&g, &vec![0, 0, 0]), Err(EngineError::CorruptAssignment));
}

#[test]
fn tally_path_graph_pop() {
    let g = path_graph(3);
    let groups = partition_groups(&g, &vec![0, 0, 1]).unwrap();
    assert_eq!(groups.len(), 2);
    assert_eq!((groups[0].label, groups[0].nodes.clone()), (0, vec![0, 1]));
    assert_eq!((groups[1].label, groups[1].nodes.clone()), (1, vec![2]));
    assert_eq!(tally(&groups, &[10.0, 20.0, 30.0]), vec![(0, 30.0), (1, 30.0)]);
}

#[test]
fn tally_domain_is_the_assignment_labels() {
    let g = path_graph(5);
    let groups = partition_groups(&g, &vec![4, 2, 4, 9, 2]).unwrap();
    let labels: Vec<u16> = groups.iter().map(|g| g.label).collect();
    assert_eq!(labels, vec![2, 4, 9]);
    assert_eq!(groups[0].nodes, vec![1, 4]);
    assert_eq!(groups[1].nodes, vec![0, 2]);
    assert_eq!(groups[2].nodes, vec![3]);
}

#[test]
fn tally_sums_are_conserved() {
    let g = path_graph(6);
    let values: Vec<i64> = vec![3, 14, 15, 92, 65, 35];
    for a in [vec![0u16, 1, 2, 0, 1, 2], vec![5, 5, 5, 5, 5, 5], vec![0, 1, 2, 3, 4, 5]] {
        let groups = partition_groups(&g, &a).unwrap();
        let total: i64 = groups.iter().map(|g| g.nodes.iter().map(|&i| values[i]).sum::<i64>()).sum();
        assert_eq!(total, values.iter().sum::<i64>());
    }
}

#[test]
fn tally_refuses_wrong_length() {
    let g = path_graph(3);
    assert!(matches!(partition_groups(&g, &vec![0, 1]), Err(EngineError::CorruptAssignment)));
}

#[test]
fn tally_empty_graph_has_no_partitions() {
    let g = Graph::from_adjacency(&vec![]);
    assert_eq!(partition_groups(&g, &vec![]).unwrap().len(), 0);
}

#[test]
fn swap_of_two_nodes_without_correction() {
    let t = track_changes(&vec![vec![0, 1], vec![1, 0]], &vec![false], false, None).unwrap();
    assert_eq!(t.counts(), vec![1, 1]);
    assert_eq!(t.processed(), 2);
}

#[test]
fn swap_of_two_nodes_with_forced_correction() {
    let t = track_changes(&vec![vec![0, 1], vec![1, 0]], &vec![true], true, None).unwrap();
    assert_eq!(t.counts(), vec![0, 0]);
    assert_eq!(t.current(), vec![0, 1]);
}

#[test]
fn coin_is_ignored_when_correction_off() {
    let records = vec![vec![0, 1], vec![1, 0], vec![1, 1], vec![0, 1]];
    let a = track_changes(&records, &vec![true, true, true], false, None).unwrap();
    let b = track_changes(&records, &vec![false, true, false], false, None).unwrap();
    assert_eq!(a.counts(), b.counts());
    assert_eq!(a.counts(), vec![2, 2]);
}

#[test]
fn repeated_assignment_changes_nothing() {
    for swap in [false, true] {
        let mut t = ChangeTracker::new(&vec![0, 0, 1, 2]);
        t.step(&vec![1, 0, 1, 2], swap).unwrap();
        let before = t.counts();
        t.step(&vec![1, 0, 1, 2], swap).unwrap();
        assert_eq!(t.counts(), before);
    }
}

#[test]
fn same_stream_gives_same_counters() {
    let records = vec![vec![0, 1, 2, 2], vec![0, 1, 1, 2], vec![1, 1, 0, 2], vec![2, 1, 0, 0]];
    let coins = vec![true, false, true];
    let a = track_changes(&records, &coins, true, None).unwrap();
    let b = track_changes(&records, &coins, true, None).unwrap();
    assert_eq!(a.counts(), b.counts());
    assert_eq!(a.current(), b.current());
}

#[test]
fn label_flip_is_undone_by_the_opposite_coin() {
    let raw = vec![0u16, 1, 1, 1];
    let flipped = vec![1u16, 0, 0, 0];
    for (c1, c2) in [(true, false), (false, true)] {
        let mut t1 = ChangeTracker::new(&vec![0, 0, 1, 1]);
        let mut t2 = ChangeTracker::new(&vec![0, 0, 1, 1]);
        t1.step(&raw, c1).unwrap();
        t2.step(&flipped, c2).unwrap();
        assert_eq!(t1.counts(), t2.counts());
        assert_eq!(t1.current(), t2.current());
    }
}

#[test]
fn correction_swap_is_kept_in_the_permutation() {
    let mut t = ChangeTracker::new(&vec![0, 0, 1, 1]);
    t.step(&vec![0, 1, 1, 1], true).unwrap();
    assert_eq!(t.current(), vec![1, 0, 0, 0]);
    assert_eq!(t.counts(), vec![1, 0, 1, 1]);
    t.step(&vec![0, 1, 1, 1], false).unwrap();
    assert_eq!(t.current(), vec![1, 0, 0, 0]);
    assert_eq!(t.counts(), vec![1, 0, 1, 1]);
}

#[test]
fn tracker_refuses_bad_records() {
    let mut t = ChangeTracker::new(&vec![0, 1, 1]);
    assert_eq!(t.step(&vec![0, 1], false), Err(EngineError::CorruptAssignment));
    assert_eq!(t.step(&vec![0, 2, 1], false), Err(EngineError::CorruptAssignment));
    assert_eq!(t.processed(), 1);
    assert_eq!(t.counts(), vec![0, 0, 0]);
}

#[test]
fn observe_without_correction_is_plain_step() {
    let mut t = ChangeTracker::new(&vec![0, 1, 2]);
    t.observe(&vec![2, 1, 0], false).unwrap();
    assert_eq!(t.counts(), vec![1, 0, 1]);
}

#[test]
fn observe_with_correction_gives_one_of_two_outcomes() {
    let mut t = ChangeTracker::new(&vec![0, 0, 1, 1]);
    t.observe(&vec![0, 1, 1, 1], true).unwrap();
    let c = t.counts();
    assert!(c == vec![0, 1, 0, 0] || c == vec![1, 0, 1, 1]);
}

#[test]
fn empty_stream_is_an_error() {
    assert!(matches!(track_changes(&vec![], &vec![], true, None), Err(EngineError::EmptyStream)));
}

#[test]
fn max_accepted_limits_the_records() {
    let records = vec![vec![0, 1], vec![1, 0], vec![0, 1]];
    let coins = vec![false, false];
    assert_eq!(track_changes(&records, &coins, false, Some(2)).unwrap().processed(), 2);
    assert_eq!(track_changes(&records, &coins, false, Some(0)).unwrap().processed(), 1);
    assert_eq!(track_changes(&records, &coins, false, Some(10)).unwrap().processed(), 3);
    let t = ChangeTracker::new(&vec![0]);
    assert!(t.limit_reached(Some(1)));
    assert!(!t.limit_reached(Some(2)));
    assert!(!t.limit_reached(None));
}

#[test]
fn track_changes_reports_corrupt_record() {
    let records = vec![vec![0, 1], vec![1, 0, 0]];
    assert!(matches!(
        track_changes(&records, &vec![false], false, None),
        Err(EngineError::CorruptAssignment)
    ));
}

#[test]
fn first_disagreement_finds_first_index() {
    assert_eq!(first_disagreement(&vec![1, 2, 3], &vec![1, 5, 4]), Some(1));
    assert_eq!(first_disagreement(&vec![1, 2, 3], &vec![1, 2, 3]), None);
}

#[test]
fn observed_labels_are_sorted_union() {
    let rows = vec![vec![3, 1], vec![1, 7], vec![]];
    assert_eq!(observed_labels(&rows), vec![1, 3, 7]);
    assert_eq!(observed_labels(&vec![]), Vec::<u16>::new());
}

#[test]
fn align_columns_marks_missing_partitions() {
    assert_eq!(align_columns(&vec![1, 3, 7], &vec![3, 7]), vec![None, Some(0), Some(1)]);
}

#[test]
fn pipeline_rerun_is_identical() {
    let g = path_graph(4);
    let records = vec![vec![0u16, 0, 1, 1], vec![0, 1, 1, 1], vec![2, 1, 1, 0]];
    let run = || {
        let mut out = Vec::new();
        for a in &records {
            let groups = partition_groups(&g, a).unwrap();
            out.push((cut_edges(&g, a).unwrap(), groups.iter().map(|g| (g.label, g.nodes.clone())).collect::<Vec<_>>()));
        }
        out
    };
    assert_eq!(run(), run());
}
