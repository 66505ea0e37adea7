//! Structural analytics over a directed graph with dense integer vertex ids:
//! graph construction with sorted out-neighbor lists, breadth-first search
//! for hop distances and eccentricity, and neighborhood-overlap metrics
//! (local clustering coefficient, Jaccard similarity) together with
//! graph-wide scans built on them.

pub mod graphs;
pub mod similarities;
pub mod traversal;
