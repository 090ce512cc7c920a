//! Co-occurrence graphs of genre labels, with degree and betweenness
//! centrality.
//!
//! Records each carry a raw comma-delimited label string. The library
//! builds an undirected weighted graph whose nodes are the distinct
//! trimmed labels and whose edge weights count co-occurrences, then
//! scores every node by degree centrality (distinct incident edges)
//! and by betweenness centrality (Brandes' algorithm over the
//! unweighted topology).

pub mod centrality;
pub mod graph;
pub mod labels;
