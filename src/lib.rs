//! A Wireworld simulator over the unbounded `i32` lattice: the sparse cell
//! grid with its neighbor graph, the per-client viewport session, the wire
//! messages, the `.wi` loader and the client's tile buffer.

pub mod common;
pub mod world;
pub mod proto;
pub mod session;
pub mod wi;
pub mod client;
