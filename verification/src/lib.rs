//! A call-by-need evaluation core.
//!
//! A [`store::Store`] owns cells. A cell starts out holding a deferred
//! computation and, once forced, holds the integer that the computation
//! led to, for good. A [`node::Node`] is an integer or a reference to a
//! cell; references are freely copied, and every copy sees the one cell.

pub mod fault;
pub mod node;
pub mod semantics;
pub mod store;
pub mod builtins;
pub mod render;
pub mod theorems;
