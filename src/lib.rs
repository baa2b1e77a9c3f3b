//! A small reactive state-propagation engine: signal cells, lazily cached
//! derived nodes, eager effects with cycle protection, keyed list
//! reconciliation, tree-scoped context and error boundaries.
pub mod context;
pub mod errors;
pub mod keyed;
pub mod parity;
pub mod reactive;
