//! Laws: what holds of the queries together, stated over the models of the
//! formula and of the queries, and proved.

pub mod access;
pub mod checking;
pub mod codec;
pub mod complete;
pub mod copies;
pub mod counting;
pub mod distinct;
pub mod enumeration;
pub mod facts;
pub mod first;
pub mod increment;
pub mod models;
pub mod next;
pub mod paths;
pub mod regions;
pub mod slots;
pub mod sums;
pub mod tautology;
pub mod transfer;
pub mod unique;
pub mod witness;
