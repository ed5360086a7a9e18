//! Path-similarity clustering for pangenome variation graphs.
//!
//! Paths through a graph are compared by the base pairs they put on each
//! node; the resulting distance matrix is clustered either by DBSCAN with
//! `minPts = 1` (connected components under a threshold, chosen
//! automatically when not given) or by cutting an average-linkage (UPGMA)
//! tree, and the clusters are laid out for display.
//!
//! Distances are exact fixed-point integers: a normalized distance `d` stands
//! for `d / DIST_SCALE`, so every comparison and threshold search is exact.
//!
//! - `coverage`: per-path node coverage and the clustering nodes
//! - `distance`: weighted Jaccard similarity and normalized distances
//! - `union_find`, `labels`, `dbscan`: components and automatic `eps`
//! - `dendrogram`, `cut`: UPGMA trees and cutting them into clusters
//! - `organize`, `pipeline`: medoids, display order, the whole pipeline
//! - `export`: the per-path and per-cluster tables
//! - `gfa`, `groups`, `csv`, `names`: reading path lists, prefixes, names

mod fxmap;

pub mod coverage;
pub mod cut;
pub mod csv;
pub mod dbscan;
pub mod dendrogram;
pub mod distance;
pub mod export;
pub mod gfa;
pub mod groups;
pub mod labels;
pub mod names;
pub mod organize;
pub mod pipeline;
pub mod union_find;
