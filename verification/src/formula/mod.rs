//! The data model: literals, nodes, edges and the formula that holds them.

pub mod assumptions;
pub mod bottom_up_traversal;
pub mod decision_dnnf;
pub mod free_variables;
pub mod involved_vars;
pub mod literal;
pub mod subformula;

pub use assumptions::Assumptions;
pub use bottom_up_traversal::BiBottomUpVisitor;
pub use bottom_up_traversal::BottomUpTraversal;
pub use bottom_up_traversal::BottomUpVisitor;
pub use decision_dnnf::DecisionDNNF;
pub use decision_dnnf::Edge;
pub use decision_dnnf::EdgeIndex;
pub use decision_dnnf::Node;
pub use decision_dnnf::NodeIndex;
pub use free_variables::FreeVariables;
pub use free_variables::OrFreeVariables;
pub use involved_vars::BitToLitIterator;
pub use involved_vars::InvolvedVars;
pub use literal::Literal;
