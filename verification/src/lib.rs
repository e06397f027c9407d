//! Classic algorithms with machine-checked contracts.
//!
//! The heart of the crate is a directed graph keyed by caller-chosen node
//! identifiers ([`graph`], read from text by [`loader`]), an iterative
//! depth-first traversal over it, and the decomposition of a graph into
//! its strongly connected components by two such traversals
//! ([`kosaraju`]). What a traversal maintains is worked out in
//! [`traversal`], over the paths of [`reach`]; why the trees of the second
//! traversal are the components, in [`forest`] and [`decomposition`].
//!
//! Around it stand smaller exercises: multiplication by divide and
//! conquer, four ways to sort, random contraction, running medians, sums
//! of two numbers, and a few puzzles.

pub mod fx;
pub mod text;

pub mod graph;
pub mod loader;
pub mod reach;
pub mod traversal;
pub mod forest;
pub mod decomposition;
pub mod kosaraju;

pub mod karatsuba;
pub mod sorted;
pub mod select_sort;
pub mod merge_sort;
pub mod inversions;
pub mod quick;
pub mod karger;
pub mod dijkstra;
pub mod two_sum;
pub mod median;

pub mod custom_array;
pub mod raw_entry_api;
pub mod entry_points;
pub mod die_agony;
pub mod codingame;
