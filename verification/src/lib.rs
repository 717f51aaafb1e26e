//! Agglomerative clustering of labelled items by average linkage.
//!
//! From a table of pairwise scores the two active clusters with the greatest
//! score are merged, again and again, until one cluster holds every item. The
//! merges make a binary tree, which is written as Newick text.
//!
//! - [`max_heap`]: the priority queue of candidate pairs.
//! - [`pair_table`]: the table of pairwise scores.
//! - [`linkage`]: the score of two clusters.
//! - [`forest`]: the forest of clusters as contracts see it, and its laws.
//! - [`binary_tree`]: the arena of clusters, one step of clustering, and the
//!   text of the finished tree.
//! - [`run`]: a whole run of clustering as contracts see it, and its laws.
//! - [`clustering`]: from records to the finished tree.
//! - [`three_items`]: the smallest case with a choice, worked through.
//! - [`tsv`]: the table as text.

pub mod binary_tree;
pub mod clustering;
pub mod forest;
pub mod linkage;
pub mod max_heap;
pub mod pair_table;
pub mod run;
mod seq_facts;
pub mod three_items;
pub mod tsv;
