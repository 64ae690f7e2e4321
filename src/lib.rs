//! Aggregate statistics over an ensemble of graph partitions: per-partition
//! attribute tallies, cut-edge counts, and relabeling-invariant counts of how
//! often each node changed partition.

mod cut;
mod error;
mod graph;
mod rows;
mod tally;
mod tracker;

pub use cut::{
    cut_edges, cut_edges_of, edges_within, fits_graph, is_cut, lemma_cut_edges_bounded,
    lemma_cut_edges_members,
};
pub use error::EngineError;
pub use graph::{listed_edge, ordered_pair, Graph, GraphModel};
pub use rows::{
    align_columns, in_some_row, lemma_observed_labels_determined,
    lemma_strictly_increasing_determined, observed_labels, strictly_increasing, RowCounter,
    RowHeader,
};
pub use tally::{
    as_ints, group_labels, groups_of, lemma_groups_conserve_tallies, lemma_groups_determined,
    lemma_tally_conservation, members, partition_groups, sum_at, sum_values,
    tally_total, PartitionGroup,
};
pub use tracker::{
    accepts, add_changes, correction_pair, first_disagreement, identity_perm, initial_model,
    is_first_disagreement, label_bound, lemma_label_swap_invariance, lemma_repeat_leaves_counts,
    lemma_run_ignores_coins_without_correction, relabel, run_model, step_model, swap_labels,
    swaps_of, taken_count, track_changes, tracker_inv, transpose, ChangeTracker, TrackerModel,
};
