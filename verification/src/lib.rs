//! Conversion between the ASCIIGraph text format of the WebGraph framework and the
//! binary "Cecilia" adjacency format, and the restoration of a graph from the lists
//! that a biclique extraction leaves and the extracted bicliques.

pub mod le;
pub mod text;
pub mod cecilia;
pub mod ascii_graph;
pub mod cecilia_text;
pub mod biclique;
pub mod cliques;
pub mod genuine;
pub mod degree;
pub mod restore;
