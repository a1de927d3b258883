//! Ranking of the airports of a flight network: a packed symmetric counter
//! matrix of flights between airports, an exact-coordinate airport lookup,
//! a decoder for framed flight records, and the walk of a clustering
//! dendrogram that extracts the top-level leaves.

pub mod condensed;
pub mod network;
pub mod hubs;
pub mod airports;
pub mod flights_parser;
pub mod pipeline;
