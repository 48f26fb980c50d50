//! A safe, handle-based boundary over a parsed object-type hierarchy.
//!
//! The library models the parsed hierarchy (`Tree` of `Node`s, each carrying
//! variable and procedure tables), enforces the one-allocation/one-release
//! handle discipline through ownership and an explicit ledger, exposes the
//! traversals over nodes, children and variables, and implements the compact
//! self-describing binary encoding used to hand a node's variable or
//! procedure table across the boundary in bulk.

pub mod codec;
pub mod handle;
pub mod model;
pub mod tree;
mod util;

pub use handle::buffer_free;
pub use handle::node_free;
pub use handle::string_free;
pub use handle::var_free;
pub use handle::BufHandle;
pub use handle::HandleLedger;
pub use handle::NodeHandle;
pub use handle::StrHandle;
pub use handle::VarHandle;
pub use model::Node;
pub use model::ProcedureEntry;
pub use model::VariableEntry;
pub use model::NO_PARENT;
pub use tree::CompilationContext;
pub use tree::Tree;
pub use tree::TreeError;
