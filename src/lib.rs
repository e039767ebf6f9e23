//! Simple graphs with position-addressed edges, their graph6 text, the
//! surgery operators that build larger graphs from smaller ones, and the
//! candidate generation of the family enumeration.
pub mod graph;
pub mod surgery;
pub mod codec;
pub mod enumerate;
pub mod adjacency;
