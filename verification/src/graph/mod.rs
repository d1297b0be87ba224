//! The in-memory graph, the algorithms over it, and how a traversal is asked.

pub mod algorithms;
pub mod astar;
pub mod binary64;
pub mod builder;
pub mod chain;
pub mod climbing;
pub mod communities;
pub mod components;
pub mod cores;
pub mod cut;
pub mod dense;
pub mod determined;
pub mod differing;
pub mod edge;
pub mod exact;
pub mod finish;
pub mod fold;
pub mod guarding;
pub mod heap;
pub mod ledger;
pub mod lineage;
pub mod lineage_sql;
pub mod load;
pub mod loading;
pub mod modularity;
pub mod nearest;
pub mod optimum;
pub mod plan;
pub mod pool;
pub mod pricing;
pub mod quality;
pub mod reach;
pub mod reached;
pub mod reading;
pub mod relabel;
pub mod resolved;
pub mod resolving;
pub mod rounding;
pub mod search;
pub mod seen;
pub mod shortest;
pub mod subgraph;
pub mod tally;
pub mod unguided;
pub mod vector_filter;
pub mod walking;
pub mod weights;
pub mod worth;

pub use algorithms::{dijkstra, k_core, scc};
pub use astar::astar;
pub use builder::{AttributeMode, TraversalBuilder, WalkOutcome};
pub use communities::{louvain, Arithmetic};
pub use edge::{validate_edge_type, EdgeAssertion};
pub use lineage::Ancestor;
pub use modularity::modularity;
pub use subgraph::{EdgeRef, NodeData, Subgraph};
pub use vector_filter::{
    CandidateCount, CostEstimate, CostEstimator, FilteredVectorSearch, VectorFilterStrategy,
    DEFAULT_BYTE_BUDGET, DEFAULT_PROBE_CAP,
};
