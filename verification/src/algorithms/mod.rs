//! The queries on a formula.

pub mod batches;
pub mod checker;
pub mod counting;
pub mod decision_tree;
pub mod direct_access;
pub mod direct_access_ordered;
pub mod model_enumerator;
pub mod model_finder;
pub mod orphan_nodes_and_edges;
pub mod sampling;

pub use checker::DecisionDNNFChecker;
pub use counting::ModelCounter;
pub use decision_tree::DecisionTreeEnumerator;
pub use direct_access::DirectAccessEngine;
pub use direct_access_ordered::OrderedDirectAccessEngine;
pub use model_enumerator::ModelEnumerator;
pub use model_finder::ModelFinder;
pub use orphan_nodes_and_edges::OrphanFinder;
