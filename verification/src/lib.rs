pub mod chart_to_hg;
pub mod features;
pub mod grammar;
pub mod hypergraph;
pub mod hypergraph_algos;
pub mod hypergraph_io;
pub mod json;
pub mod parse;
pub mod semiring;
pub mod text;
