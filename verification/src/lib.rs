//! Monte Carlo estimation of the percolation threshold of an n-by-n site
//! lattice, built on a weighted union-find structure with path compression.

pub mod estimate;
pub mod perc;
pub mod union_find;
