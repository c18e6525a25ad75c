//! Queries on Decision-DNNF formulas: model counting, direct access to the
//! k-th model, model enumeration and model finding, with the contracts of
//! each query stated over a mathematical model of the formula.

pub mod algorithms;
pub mod error;
pub mod formula;
pub mod io;
pub mod laws;
pub mod numbers;

pub use algorithms::DecisionDNNFChecker;
pub use algorithms::DecisionTreeEnumerator;
pub use algorithms::DirectAccessEngine;
pub use algorithms::ModelCounter;
pub use algorithms::ModelEnumerator;
pub use algorithms::ModelFinder;
pub use algorithms::OrderedDirectAccessEngine;
pub use algorithms::OrphanFinder;
pub use error::Error;
pub use error::ReadError;
pub use formula::Assumptions;
pub use formula::BiBottomUpVisitor;
pub use formula::BottomUpTraversal;
pub use formula::BottomUpVisitor;
pub use formula::DecisionDNNF;
pub use formula::Edge;
pub use formula::EdgeIndex;
pub use formula::FreeVariables;
pub use formula::Literal;
pub use formula::Node;
pub use formula::NodeIndex;
pub use formula::OrFreeVariables;
pub use io::BinaryReader;
pub use io::BinaryWriter;
pub use io::C2dWriter;
pub use io::D4Reader;
pub use io::DecisionDNNFReader;
pub use io::DecisionDNNFWriter;
pub use io::ModelWriter;
pub use io::SmartReader;
